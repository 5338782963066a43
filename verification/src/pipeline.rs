use crate::collections::{PointSet, Turn};
use crate::graph::{
    agree_on, chained, follows, graph_of, is_core, is_segment_graph, leafless, linked, orderly, restricted, well_formed, PointGraph,
    PointSubGraph, SegmentGraph,
};
use crate::point::{Point, Segment};
use crate::traversal::{lemma_walks_agree, walk, Policy};
use vstd::prelude::*;

verus! {

/// Consecutive points of `path` are neighbours in the graph.
pub open spec fn is_path(adjacency: Map<Point, Set<Point>>, path: Seq<Point>) -> bool {
    &&& path.len() >= 1
    &&& forall|i: int| 0 <= i < path.len() - 1 ==> linked(adjacency, #[trigger] path[i], path[i + 1])
}

/// Some path of the graph leads from `from` to `to`.
pub open spec fn connected(adjacency: Map<Point, Set<Point>>, from: Point, to: Point) -> bool {
    exists|path: Seq<Point>| #[trigger]
        is_path(adjacency, path) && path.first() == from && path.last() == to
}

/// Every neighbour of a point of `points` is a point of `points`.
pub open spec fn closed(adjacency: Map<Point, Set<Point>>, points: Set<Point>) -> bool {
    forall|p: Point, q: Point|
        points.contains(p) && #[trigger] linked(adjacency, p, q) ==> points.contains(q)
}

/// `points` is a connected component of the graph: points of the graph, at
/// least one, any two of them joined by a path, and no neighbour left out.
pub open spec fn is_component(adjacency: Map<Point, Set<Point>>, points: Set<Point>) -> bool {
    &&& points.finite()
    &&& points.len() >= 1
    &&& points.subset_of(adjacency.dom())
    &&& closed(adjacency, points)
    &&& forall|p: Point, q: Point|
        points.contains(p) && points.contains(q) ==> #[trigger] connected(adjacency, p, q)
}

/// The sets of `parts` split the points of the graph: each point lies in
/// exactly one of them.
pub open spec fn is_partition(adjacency: Map<Point, Set<Point>>, parts: Seq<Set<Point>>) -> bool {
    &&& forall|p: Point| #[trigger]
        adjacency.contains_key(p) ==> exists|i: int| #[trigger] holds(parts, i, p)
    &&& forall|i: int, p: Point| #[trigger] holds(parts, i, p) ==> adjacency.contains_key(p)
    &&& forall|i: int, j: int, p: Point|
        #[trigger] holds(parts, i, p) && #[trigger] holds(parts, j, p) ==> i == j
}

/// The set at `index` holds `point`.
pub open spec fn holds(parts: Seq<Set<Point>>, index: int, point: Point) -> bool {
    0 <= index < parts.len() && parts[index].contains(point)
}

/// What each set of the list holds.
pub open spec fn views(parts: Seq<PointSet>) -> Seq<Set<Point>> {
    Seq::new(parts.len(), |i: int| parts[i]@)
}

/// A path goes on by one step along an edge.
proof fn lemma_connected_step(adjacency: Map<Point, Set<Point>>, a: Point, b: Point, c: Point)
    requires
        connected(adjacency, a, b),
        linked(adjacency, b, c),
    ensures
        connected(adjacency, a, c),
{
    let path = choose|path: Seq<Point>| #[trigger]
        is_path(adjacency, path) && path.first() == a && path.last() == b;
    let longer = path.push(c);
    assert forall|i: int| 0 <= i < longer.len() - 1 implies linked(
        adjacency,
        #[trigger] longer[i],
        longer[i + 1],
    ) by {
        if i < path.len() - 1 {
            assert(longer[i] == path[i]);
            assert(longer[i + 1] == path[i + 1]);
        }
    }
    assert(is_path(adjacency, longer) && longer.first() == a && longer.last() == c);
}

/// Every point is joined to itself.
proof fn lemma_connected_self(adjacency: Map<Point, Set<Point>>, a: Point)
    ensures
        connected(adjacency, a, a),
{
    let path = seq![a];
    assert(is_path(adjacency, path) && path.first() == a && path.last() == a);
}

/// In a symmetric graph a path can be walked backwards.
proof fn lemma_connected_back(adjacency: Map<Point, Set<Point>>, a: Point, b: Point)
    requires
        well_formed(adjacency),
        connected(adjacency, a, b),
    ensures
        connected(adjacency, b, a),
{
    let path = choose|path: Seq<Point>| #[trigger]
        is_path(adjacency, path) && path.first() == a && path.last() == b;
    let back = path.reverse();
    assert forall|i: int| 0 <= i < back.len() - 1 implies linked(
        adjacency,
        #[trigger] back[i],
        back[i + 1],
    ) by {
        let j = path.len() - 2 - i;
        assert(linked(adjacency, path[j], path[j + 1]));
        assert(back[i] == path[j + 1]);
        assert(back[i + 1] == path[j]);
    }
    assert(is_path(adjacency, back) && back.first() == b && back.last() == a);
}

/// Two paths that meet end to start make one path.
proof fn lemma_connected_chain(adjacency: Map<Point, Set<Point>>, a: Point, b: Point, c: Point)
    requires
        connected(adjacency, a, b),
        connected(adjacency, b, c),
    ensures
        connected(adjacency, a, c),
{
    let first = choose|path: Seq<Point>| #[trigger]
        is_path(adjacency, path) && path.first() == a && path.last() == b;
    let second = choose|path: Seq<Point>| #[trigger]
        is_path(adjacency, path) && path.first() == b && path.last() == c;
    let whole = first + second.drop_first();
    assert forall|i: int| 0 <= i < whole.len() - 1 implies linked(
        adjacency,
        #[trigger] whole[i],
        whole[i + 1],
    ) by {
        if i < first.len() - 1 {
            assert(whole[i] == first[i]);
            assert(whole[i + 1] == first[i + 1]);
        } else if i == first.len() - 1 {
            assert(whole[i] == first[i]);
            assert(whole[i + 1] == second[1]);
            assert(linked(adjacency, second[0], second[1]));
        } else {
            let j = i - first.len() + 1;
            assert(whole[i] == second[j]);
            assert(whole[i + 1] == second[j + 1]);
            assert(linked(adjacency, second[j], second[j + 1]));
        }
    }
    assert(whole.first() == a);
    assert(whole.last() == c) by {
        if second.len() == 1 {
            assert(whole =~= first);
        } else {
            assert(whole[whole.len() - 1] == second[second.len() - 1]);
        }
    }
    assert(is_path(adjacency, whole) && whole.first() == a && whole.last() == c);
}

/// The segments that end on a point of `points`.
pub open spec fn ending_in(points: Set<Point>) -> Set<Segment> {
    Set::new(|s: Segment| points.contains(s.1))
}

/// The graph of segments of a connected component is what the graph of
/// segments of the whole graph is on the segments that end in the component:
/// they have the same successors in both, and these end in the component
/// again.  So a walk that starts in the component is the same walk on both.
pub proof fn lemma_component_agrees(
    adjacency: Map<Point, Set<Point>>,
    points: Set<Point>,
    full: SegmentGraph,
    slice: SegmentGraph,
)
    requires
        closed(adjacency, points),
        is_segment_graph(full, adjacency, None),
        is_segment_graph(slice, adjacency, Some(points)),
    ensures
        agree_on(slice@, full@, ending_in(points)),
{
    assert forall|s: Segment, t: Segment| ending_in(points).contains(s) implies (#[trigger] chained(
        slice@,
        s,
        t,
    ) <==> chained(full@, s, t)) && (chained(slice@, s, t) ==> ending_in(points).contains(
        t,
    )) by {
        assert(full.connects(s, t) <==> follows(adjacency, None, s, t));
        assert(slice.connects(s, t) <==> follows(adjacency, Some(points), s, t));
        if follows(adjacency, Some(points), s, t) {
            assert(linked(adjacency, s.1, t.1));
        }
    }
}

/// The lists of `outputs`, one after the other.
pub open spec fn gathered<R>(outputs: Seq<Vec<R>>) -> Seq<R>
    decreases outputs.len(),
{
    if outputs.len() == 0 {
        Seq::empty()
    } else {
        gathered(outputs.drop_last()) + outputs.last()@
    }
}

/// `output` is what `transform` gave for the graph of the segments that lie
/// on the points of `part`.
pub open spec fn served<F: Fn(SegmentGraph) -> Vec<R>, R>(
    adjacency: Map<Point, Set<Point>>,
    transform: F,
    part: Set<Point>,
    output: Vec<R>,
) -> bool {
    exists|graph: SegmentGraph|
        is_segment_graph(graph, adjacency, Some(part)) && #[trigger] transform.ensures(
            (graph,),
            output,
        )
}

/// What [PartitionPipeline::apply] hands to `transform`, and what it makes
/// of what comes back: `parts` are the connected components of the graph,
/// `outputs[i]` is what `transform` gave for the graph of the segments of
/// `parts[i]`, and `results` holds these lists one after the other.
pub open spec fn applied<F: Fn(SegmentGraph) -> Vec<R>, R>(
    adjacency: Map<Point, Set<Point>>,
    transform: F,
    parts: Seq<Set<Point>>,
    outputs: Seq<Vec<R>>,
    results: Seq<R>,
) -> bool {
    &&& is_partition(adjacency, parts)
    &&& outputs.len() == parts.len()
    &&& forall|i: int|
        0 <= i < parts.len() ==> is_component(adjacency, #[trigger] parts[i]) && served(
            adjacency,
            transform,
            parts[i],
            outputs[i],
        )
    &&& results == gathered(outputs)
}

/// Working on the connected components one by one finds what working on
/// the whole graph finds: a walk that starts on a segment that ends in a
/// component is the same walk on the graph of the segments of the component
/// and on the graph of all segments.
pub proof fn lemma_component_walks(
    adjacency: Map<Point, Set<Point>>,
    points: Set<Point>,
    full: SegmentGraph,
    slice: SegmentGraph,
    scores: Map<Turn, (i64, i64)>,
    policy: Policy,
    stack: Seq<Segment>,
    current: Segment,
    previous: Segment,
)
    requires
        closed(adjacency, points),
        is_segment_graph(full, adjacency, None),
        is_segment_graph(slice, adjacency, Some(points)),
        points.contains(current.1),
    ensures
        walk(slice@, scores, policy, stack, current, previous) == walk(
            full@,
            scores,
            policy,
            stack,
            current,
            previous,
        ),
{
    lemma_component_agrees(adjacency, points, full, slice);
    lemma_walks_agree(
        slice@,
        full@,
        ending_in(points),
        scores,
        policy,
        stack,
        current,
        previous,
    );
}

/// A pipeline processes a list of segments and delivers the graphs of
/// segments on which polygons are searched.
pub struct Pipeline {
    /// The adjacency list that represents the graph of points.
    pub(crate) graph: PointGraph,
}

impl View for Pipeline {
    type V = Map<Point, Set<Point>>;

    closed spec fn view(&self) -> Map<Point, Set<Point>> {
        self.graph@
    }
}

/// This pipeline is constructed from [Pipeline] to process the connected
/// components of the graph one by one.
pub struct PartitionPipeline {
    /// The adjacency list that represents the graph of points.
    pub(crate) graph: PointGraph,
}

impl View for PartitionPipeline {
    type V = Map<Point, Set<Point>>;

    closed spec fn view(&self) -> Map<Point, Set<Point>> {
        self.graph@
    }
}

impl Pipeline {
    /// Instantiate the pipeline from a set of segments: it holds the graph
    /// of their points with every dead end cut back.
    pub fn from(segments: &[Segment]) -> (pipeline: Pipeline)
        ensures
            well_formed(pipeline@),
            leafless(pipeline@),
            is_core(graph_of(segments@), pipeline@.dom()),
            pipeline@ == restricted(graph_of(segments@), pipeline@.dom()),
    {
        Pipeline {
            // prune the graph by removing dead ends
            graph: PointGraph::from(segments).prune(),
        }
    }

    /// The graph of points, with every dead end cut back.
    pub fn graph(&self) -> (graph: &PointGraph)
        ensures
            graph@ == self@,
    {
        &self.graph
    }

    /// Applies a transformation function to the graph of all segments and
    /// hands back what it returns.
    pub fn apply<F, R>(&self, transform: F) -> (results: Vec<R>) where
        F: Fn(SegmentGraph) -> Vec<R>,

        requires
            forall|graph: SegmentGraph|
                is_segment_graph(graph, self@, None) ==> #[trigger] transform.requires((graph,)),
        ensures
            exists|graph: SegmentGraph|
                is_segment_graph(graph, self@, None) && #[trigger] transform.ensures(
                    (graph,),
                    results,
                ),
    {
        // constructs the full graph of segments
        let graph = SegmentGraph::from(&self.graph.fullgraph());
        let ghost given = graph;
        let results = transform(graph);
        assert(is_segment_graph(given, self@, None) && transform.ensures((given,), results));
        results
    }

    /// Takes ownership of the pipeline to construct a pipeline that works on
    /// the graph's connected components.
    pub fn partition(self) -> (partitioned: PartitionPipeline)
        ensures
            partitioned@ == self@,
    {
        PartitionPipeline { graph: self.graph }
    }
}

impl PartitionPipeline {
    /// The graph of points, with every dead end cut back.
    pub fn graph(&self) -> (graph: &PointGraph)
        ensures
            graph@ == self@,
    {
        &self.graph
    }

    /// Applies `transform` independently on the graph of the segments of
    /// each connected component and collects all results as one list, in an
    /// order of the components that is not fixed.
    pub fn apply<F, R>(&self, transform: F) -> (results: Vec<R>) where
        F: Fn(SegmentGraph) -> Vec<R>,

        requires
            well_formed(self@),
            forall|graph: SegmentGraph, points: Set<Point>|
                is_component(self@, points) && #[trigger] is_segment_graph(
                    graph,
                    self@,
                    Some(points),
                ) ==> transform.requires((graph,)),
        ensures
            exists|parts: Seq<Set<Point>>, outputs: Seq<Vec<R>>| #[trigger]
                applied(self@, transform, parts, outputs, results@),
    {
        let mut components = self.components();
        let ghost found = views(components@);
        let ghost total = components.len() as int;
        let ghost mut parts: Seq<Set<Point>> = Seq::empty();
        let ghost mut outputs: Seq<Vec<R>> = Seq::empty();
        let mut results: Vec<R> = Vec::new();
        while components.len() > 0
            invariant
                well_formed(self@),
                components.len() <= total,
                found.len() == total,
                is_partition(self@, found),
                forall|i: int| 0 <= i < total ==> is_component(self@, #[trigger] found[i]),
                forall|i: int|
                    0 <= i < components.len() ==> (#[trigger] components[i])@ == found[i],
                parts.len() == total - components.len(),
                outputs.len() == parts.len(),
                forall|i: int| 0 <= i < parts.len() ==> #[trigger] parts[i] == found[total - 1 - i],
                forall|i: int|
                    0 <= i < parts.len() ==> served(
                        self@,
                        transform,
                        #[trigger] parts[i],
                        outputs[i],
                    ),
                results@ == gathered(outputs),
                forall|graph: SegmentGraph, points: Set<Point>|
                    is_component(self@, points) && #[trigger] is_segment_graph(
                        graph,
                        self@,
                        Some(points),
                    ) ==> transform.requires((graph,)),
            decreases components.len(),
        {
            let ghost place = components.len() - 1;
            let points = components.pop().unwrap();
            let ghost part = points@;
            assert(part == found[place]);
            // constructs the associated graph of segments with the connected
            // component and applies `transform`
            let slice = self.graph.subgraph(points);
            let graph = SegmentGraph::from(&slice);
            let ghost given = graph;
            assert(is_segment_graph(given, self@, Some(part)));
            let mut output = transform(graph);
            proof {
                let longer = outputs.push(output);
                assert(longer.drop_last() =~= outputs);
                assert(gathered(longer) == gathered(outputs) + output@);
                assert(served(self@, transform, part, output)) by {
                    assert(is_segment_graph(given, self@, Some(part)) && transform.ensures(
                        (given,),
                        output,
                    ));
                }
                assert forall|i: int| 0 <= i < parts.len() + 1 implies served(
                    self@,
                    transform,
                    #[trigger] parts.push(part)[i],
                    longer[i],
                ) by {
                    if i < parts.len() {
                        assert(parts.push(part)[i] == parts[i]);
                        assert(longer[i] == outputs[i]);
                    }
                }
                parts = parts.push(part);
                outputs = longer;
            }
            results.append(&mut output);
        }
        proof {
            assert forall|i: int, p: Point| holds(parts, i, p) <==> holds(found, total - 1 - i, p) by {}
            assert forall|p: Point| #[trigger] self@.contains_key(p) implies exists|i: int| #[trigger]
                holds(parts, i, p) by {
                let i = choose|i: int| #[trigger] holds(found, i, p);
                assert(holds(parts, total - 1 - i, p));
            }
            assert forall|i: int, p: Point| #[trigger] holds(parts, i, p) implies self@.contains_key(
                p,
            ) by {
                assert(holds(found, total - 1 - i, p));
            }
            assert forall|i: int, j: int, p: Point|
                #[trigger] holds(parts, i, p) && #[trigger] holds(parts, j, p) implies i == j by {
                assert(holds(found, total - 1 - i, p));
                assert(holds(found, total - 1 - j, p));
            }
            assert(applied(self@, transform, parts, outputs, results@));
        }
        results
    }

    /// Splits the points of the graph into its connected components.
    pub fn components(&self) -> (parts: Vec<PointSet>)
        requires
            well_formed(self@),
        ensures
            is_partition(self@, views(parts@)),
            forall|i: int| 0 <= i < parts.len() ==> is_component(self@, (#[trigger] parts[i])@),
    {
        let keys = self.graph.points();
        // explored vertices when identifying connected components
        let mut explored = PointSet::new();
        let mut parts: Vec<PointSet> = Vec::new();
        let mut index: usize = 0;
        while index < keys.len()
            invariant
                index <= keys.len(),
                well_formed(self@),
                keys@.to_set() == self@.dom(),
                explored@.finite(),
                explored@.subset_of(self@.dom()),
                closed(self@, explored@),
                forall|j: int| 0 <= j < index ==> explored@.contains(#[trigger] keys[j]),
                forall|p: Point| #[trigger]
                    explored@.contains(p) <==> exists|i: int| #[trigger]
                        holds(views(parts@), i, p),
                forall|i: int, j: int, p: Point|
                    #[trigger] holds(views(parts@), i, p) && #[trigger] holds(views(parts@), j, p)
                        ==> i == j,
                forall|i: int|
                    0 <= i < parts.len() ==> is_component(self@, (#[trigger] parts[i])@),
            decreases keys.len() - index,
        {
            let key = keys[index];
            assert(keys@.to_set().contains(key));
            if !explored.contains(&key) {
                // if the point has not been visited yet it will detect its
                // associated connected component
                let mut points = PointSet::new();
                let ghost before = explored@;
                let ghost earlier = parts@;
                // recursive exploration as depth first traversal
                self.explore(&key, &mut explored, &mut points);
                proof {
                    let part = points@;
                    assert(part =~= explored@.difference(before));
                    assert(part.contains(key));
                    assert forall|p: Point, q: Point|
                        part.contains(p) && #[trigger] linked(self@, p, q) implies part.contains(
                        q,
                    ) by {
                        if before.contains(q) {
                            assert(linked(self@, q, p));
                        }
                    }
                    assert forall|p: Point, q: Point|
                        part.contains(p) && part.contains(q) implies #[trigger] connected(
                        self@,
                        p,
                        q,
                    ) by {
                        lemma_connected_back(self@, key, p);
                        lemma_connected_chain(self@, p, key, q);
                    }
                    assert(is_component(self@, part));
                    assert forall|p: Point, q: Point|
                        explored@.contains(p) && #[trigger] linked(
                            self@,
                            p,
                            q,
                        ) implies explored@.contains(q) by {
                        if before.contains(p) {
                            assert(before.contains(q));
                        }
                    }
                }
                parts.push(points);
                proof {
                    let last = earlier.len() as int;
                    assert(parts@[last] == points);
                    assert forall|i: int, p: Point|
                        holds(views(parts@), i, p) <==> holds(views(earlier), i, p) || (i == last
                            && points@.contains(p)) by {
                        if 0 <= i < last {
                            assert(parts@[i] == earlier[i]);
                        }
                    }
                    assert forall|p: Point| #[trigger]
                        explored@.contains(p) <==> exists|i: int| #[trigger]
                            holds(views(parts@), i, p) by {
                        if explored@.contains(p) {
                            if before.contains(p) {
                                let i = choose|i: int| #[trigger] holds(views(earlier), i, p);
                                assert(holds(views(parts@), i, p));
                            } else {
                                assert(holds(views(parts@), last, p));
                            }
                        }
                        if exists|i: int| #[trigger] holds(views(parts@), i, p) {
                            let i = choose|i: int| #[trigger] holds(views(parts@), i, p);
                            if holds(views(earlier), i, p) {
                                assert(before.contains(p));
                            }
                        }
                    }
                    assert forall|i: int, j: int, p: Point|
                        #[trigger] holds(views(parts@), i, p) && #[trigger] holds(
                            views(parts@),
                            j,
                            p,
                        ) implies i == j by {
                        if holds(views(earlier), i, p) {
                            assert(before.contains(p));
                        }
                        if holds(views(earlier), j, p) {
                            assert(before.contains(p));
                        }
                    }
                    assert forall|i: int| 0 <= i < parts.len() implies is_component(
                        self@,
                        (#[trigger] parts[i])@,
                    ) by {
                        if i < last {
                            assert(parts@[i] == earlier[i]);
                        }
                    }
                }
            }
            index = index + 1;
        }
        proof {
            assert forall|p: Point| #[trigger] self@.contains_key(p) implies exists|i: int| #[trigger]
                holds(views(parts@), i, p) by {
                assert(keys@.to_set().contains(p));
                let j = choose|j: int| 0 <= j < keys@.len() && keys@[j] == p;
                assert(explored@.contains(keys[j]));
            }
            assert forall|i: int, p: Point| #[trigger]
                holds(views(parts@), i, p) implies self@.contains_key(p) by {
                assert(explored@.contains(p));
            }
        }
        parts
    }

    /// Performs a depth first search from node `point` to detect all points
    /// in connected component `partition`: the points that it adds are new
    /// to both sets, joined to `point`, and have all their neighbours
    /// explored.
    fn explore(&self, point: &Point, explored: &mut PointSet, partition: &mut PointSet)
        requires
            well_formed(self@),
            self@.contains_key(*point),
            old(explored)@.finite(),
            old(partition)@.finite(),
            old(explored)@.subset_of(self@.dom()),
            old(partition)@.subset_of(old(explored)@),
        ensures
            final(explored)@.finite(),
            final(partition)@.finite(),
            final(explored)@.subset_of(self@.dom()),
            old(explored)@.subset_of(final(explored)@),
            final(explored)@.contains(*point),
            final(partition)@ == old(partition)@.union(
                final(explored)@.difference(old(explored)@),
            ),
            forall|p: Point, q: Point|
                final(explored)@.contains(p) && !old(explored)@.contains(p) && #[trigger] linked(
                    self@,
                    p,
                    q,
                ) ==> final(explored)@.contains(q),
            forall|p: Point|
                #[trigger] final(explored)@.contains(p) && !old(explored)@.contains(p)
                    ==> connected(self@, *point, p),
        decreases self@.dom().difference(old(explored)@).len(),
    {
        // visit only if not visited already
        if !explored.contains(point) {
            // point is added to the connected component
            explored.insert(*point);
            partition.insert(*point);
            proof {
                lemma_connected_self(self@, *point);
            }
            // recursive traversal is applied to each of its neighboring points
            if let Some(neighbors) = self.graph.neighbors(point) {
                let mut index: usize = 0;
                while index < neighbors.len()
                    invariant
                        index <= neighbors.len(),
                        well_formed(self@),
                        self@.contains_key(*point),
                        neighbors@.to_set() == self@[*point],
                        explored@.finite(),
                        partition@.finite(),
                        explored@.subset_of(self@.dom()),
                        old(explored)@.subset_of(explored@),
                        !old(explored)@.contains(*point),
                        explored@.contains(*point),
                        partition@ == old(partition)@.union(
                            explored@.difference(old(explored)@),
                        ),
                        old(partition)@.subset_of(old(explored)@),
                        forall|j: int|
                            0 <= j < index ==> explored@.contains(#[trigger] neighbors[j]),
                        forall|p: Point, q: Point|
                            explored@.contains(p) && !old(explored)@.contains(p) && p != *point
                                && #[trigger] linked(self@, p, q) ==> explored@.contains(q),
                        forall|p: Point|
                            #[trigger] explored@.contains(p) && !old(explored)@.contains(p)
                                ==> connected(self@, *point, p),
                    decreases neighbors.len() - index,
                {
                    let neighbor = neighbors[index];
                    let ghost before = explored@;
                    let ghost sofar = partition@;
                    proof {
                        assert(neighbors@.to_set().contains(neighbor));
                        assert(linked(self@, *point, neighbor));
                        let rest = self@.dom().difference(before);
                        let whole = self@.dom().difference(old(explored)@);
                        assert(rest.subset_of(whole.remove(*point)));
                        assert(whole.contains(*point));
                        vstd::set_lib::lemma_len_subset(rest, whole.remove(*point));
                        assert(sofar.subset_of(before));
                    }
                    self.explore(&neighbor, explored, partition);
                    proof {
                        assert(partition@ =~= old(partition)@.union(
                            explored@.difference(old(explored)@),
                        ));
                        assert forall|p: Point|
                            #[trigger] explored@.contains(p) && !old(explored)@.contains(
                                p,
                            ) implies connected(self@, *point, p) by {
                            if !before.contains(p) {
                                lemma_connected_self(self@, *point);
                                lemma_connected_step(self@, *point, *point, neighbor);
                                lemma_connected_chain(self@, *point, neighbor, p);
                            }
                        }
                    }
                    index = index + 1;
                }
                proof {
                    assert forall|p: Point, q: Point|
                        explored@.contains(p) && !old(explored)@.contains(p) && #[trigger] linked(
                            self@,
                            p,
                            q,
                        ) implies explored@.contains(q) by {
                        if p == *point {
                            assert(neighbors@.to_set().contains(q));
                            let j = choose|j: int| 0 <= j < neighbors@.len() && neighbors@[j] == q;
                            assert(neighbors[j] == q);
                        }
                    }
                }
            }
        } else {
            proof {
                assert(partition@ =~= old(partition)@.union(
                    explored@.difference(old(explored)@),
                ));
            }
        }
    }
}

} // verus!
