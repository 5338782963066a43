use crate::collections::{DepthMap, ScoreMap, Turn};
use crate::graph::{agree_on, chained, turning, SegmentGraph};
use crate::point::{reversed, Point, Segment};
use crate::polygon::{closing, lemma_closing_vertices, Polygon};
use vstd::prelude::*;

verus! {

/// The result of the recursive graph traversal when constructing its faces,
/// namely polygons.
#[derive(Clone, Copy, Debug, PartialEq, Eq, Structural)]
pub enum Status {
    /// When backtracking to previous recursion level because the current
    /// segment has already been explored in the opposite sense.
    Backtracking,
    /// When exhausting a specific recursion level on a segment by fully
    /// visiting it.
    Exploring,
    /// When a new path has been closed and a new polygon has been
    /// constructed.
    PathClosing,
}

/// The order in which the two scores of a turn are compared.
#[derive(Clone, Copy, Debug, PartialEq, Eq, Structural)]
pub enum Policy {
    /// The clockwise angle first, the coplanarity second.
    Theta,
    /// The coplanarity first, the clockwise angle second.
    Coplanarity,
}

/// The scores of the turns of a graph of segments: for the segment walked
/// before, the segment walked now and a segment that may come next, the
/// clockwise angle between the last two seen from above, and the
/// coplanarity of the four points.  Both are integers that preserve the
/// order of what they stand for; the lower, the better.
pub struct Scores {
    table: ScoreMap,
}

impl View for Scores {
    type V = Map<Turn, (i64, i64)>;

    closed spec fn view(&self) -> Map<Turn, (i64, i64)> {
        self.table@
    }
}

impl Scores {
    /// A table without any score.
    pub fn new() -> (scores: Scores)
        ensures
            scores@ == Map::<Turn, (i64, i64)>::empty(),
    {
        Scores { table: ScoreMap::new() }
    }

    /// Records the scores of a turn, in place of what was recorded for it.
    pub fn record(
        &mut self,
        previous: Segment,
        current: Segment,
        next: Segment,
        theta: i64,
        coplanarity: i64,
    )
        ensures
            final(self)@ == old(self)@.insert((previous, current, next), (theta, coplanarity)),
    {
        self.table.insert((previous, current, next), (theta, coplanarity));
    }

    /// The scores recorded for a turn, the clockwise angle first.
    pub fn score(&self, previous: Segment, current: Segment, next: Segment) -> (r: Option<
        (i64, i64),
    >)
        ensures
            r == if self@.contains_key((previous, current, next)) {
                Some(self@[(previous, current, next)])
            } else {
                None
            },
    {
        self.table.get(&(previous, current, next))
    }
}

/// The pair of scores in the order in which the policy compares them.
pub open spec fn rank_of(policy: Policy, score: (i64, i64)) -> (i64, i64) {
    match policy {
        Policy::Theta => score,
        Policy::Coplanarity => (score.1, score.0),
    }
}

/// Segments in the coordinate wise order of their tails, then of their heads.
pub open spec fn segment_precedes(a: Segment, b: Segment) -> bool {
    a.0.precedes_spec(b.0) || (a.0 == b.0 && a.1.precedes_spec(b.1))
}

/// Under the policy, segment `a` with its scores is taken rather than
/// segment `b` with its scores: its scores are lower, or they are the same
/// and `a` comes first in the order of segments.
pub open spec fn preferred(
    policy: Policy,
    a: Segment,
    score_a: (i64, i64),
    b: Segment,
    score_b: (i64, i64),
) -> bool {
    let rank_a = rank_of(policy, score_a);
    let rank_b = rank_of(policy, score_b);
    rank_a.0 < rank_b.0 || (rank_a.0 == rank_b.0 && (rank_a.1 < rank_b.1 || (rank_a.1 == rank_b.1
        && segment_precedes(a, b))))
}

/// `next` may follow `current` and the turn has scores.
pub open spec fn is_candidate(
    graph: Map<Segment, Set<Segment>>,
    scores: Map<Turn, (i64, i64)>,
    previous: Segment,
    current: Segment,
    next: Segment,
) -> bool {
    chained(graph, current, next) && scores.contains_key((previous, current, next))
}

/// `next` is the candidate that is taken rather than any other.
pub open spec fn is_elected(
    graph: Map<Segment, Set<Segment>>,
    scores: Map<Turn, (i64, i64)>,
    policy: Policy,
    previous: Segment,
    current: Segment,
    next: Segment,
) -> bool {
    &&& is_candidate(graph, scores, previous, current, next)
    &&& forall|other: Segment|
        other != next && #[trigger] is_candidate(graph, scores, previous, current, other)
            ==> preferred(
            policy,
            next,
            scores[(previous, current, next)],
            other,
            scores[(previous, current, other)],
        )
}

/// The successor that the policy elects after `previous` and `current`, if
/// there is a candidate at all.
pub open spec fn elected(
    graph: Map<Segment, Set<Segment>>,
    scores: Map<Turn, (i64, i64)>,
    policy: Policy,
    previous: Segment,
    current: Segment,
) -> Option<Segment> {
    if exists|next: Segment| is_elected(graph, scores, policy, previous, current, next) {
        Some(choose|next: Segment| is_elected(graph, scores, policy, previous, current, next))
    } else {
        None
    }
}

/// At most one candidate is elected.
pub proof fn lemma_elected_unique(
    graph: Map<Segment, Set<Segment>>,
    scores: Map<Turn, (i64, i64)>,
    policy: Policy,
    previous: Segment,
    current: Segment,
    first: Segment,
    second: Segment,
)
    requires
        is_elected(graph, scores, policy, previous, current, first),
        is_elected(graph, scores, policy, previous, current, second),
    ensures
        first == second,
{
    if first != second {
        assert(is_candidate(graph, scores, previous, current, first));
        assert(is_candidate(graph, scores, previous, current, second));
    }
}

/// Tells whether segment `a` with its scores is taken rather than segment
/// `b` with its scores.
pub fn prefers(policy: Policy, a: &Segment, score_a: (i64, i64), b: &Segment, score_b: (i64, i64)) -> (r:
    bool)
    ensures
        r == preferred(policy, *a, score_a, *b, score_b),
{
    let (first_a, second_a) = match policy {
        Policy::Theta => (score_a.0, score_a.1),
        Policy::Coplanarity => (score_a.1, score_a.0),
    };
    let (first_b, second_b) = match policy {
        Policy::Theta => (score_b.0, score_b.1),
        Policy::Coplanarity => (score_b.1, score_b.0),
    };
    if first_a != first_b {
        first_a < first_b
    } else if second_a != second_b {
        second_a < second_b
    } else if a.0 == b.0 {
        a.1.precedes(&b.1)
    } else {
        a.0.precedes(&b.0)
    }
}

/// Strategy to elect the optimal segment as successor when recursively
/// traversing the graph: the candidate with the lowest scores under the
/// policy.
pub struct GreedyElectionStrategy<'a> {
    /// The graph whose segments are elected.
    pub graph: &'a SegmentGraph,
    /// The scores of its turns.
    pub scores: &'a Scores,
    /// The order in which the scores are compared.
    pub policy: Policy,
}

impl<'a> GreedyElectionStrategy<'a> {
    /// Constructs a greedy election strategy using a specific policy and
    /// referencing the given graph and the scores of its turns.
    pub fn from(graph: &'a SegmentGraph, scores: &'a Scores, policy: Policy) -> (strategy: Self)
        ensures
            strategy.graph == graph,
            strategy.scores == scores,
            strategy.policy == policy,
    {
        GreedyElectionStrategy { graph, scores, policy }
    }

    /// The successor that the strategy elects after `previous` and
    /// `current`.
    pub open spec fn choice(&self, previous: Segment, current: Segment) -> Option<Segment> {
        elected(self.graph@, self.scores@, self.policy, previous, current)
    }

    /// Elects the optimal segment as successor of `current` when it was
    /// reached from `previous`.
    pub fn elect(&self, previous: Segment, current: Segment) -> (r: Option<Segment>)
        ensures
            r == self.choice(previous, current),
    {
        let successors = self.graph.successors(&current);
        let ghost graph = self.graph@;
        let ghost scores = self.scores@;
        let mut best: Option<(Segment, (i64, i64))> = None;
        let mut index: usize = 0;
        assert forall|next: Segment|
            successors@.contains(next) <==> #[trigger] chained(graph, current, next) by {
            assert(self.graph.connects(current, next) == chained(graph, current, next));
        }
        while index < successors.len()
            invariant
                index <= successors.len(),
                graph == self.graph@,
                scores == self.scores@,
                forall|next: Segment|
                    successors@.contains(next) <==> #[trigger] chained(graph, current, next),
                best.is_none() ==> forall|j: int|
                    0 <= j < index ==> !is_candidate(
                        graph,
                        scores,
                        previous,
                        current,
                        #[trigger] successors[j],
                    ),
                best.is_some() ==> {
                    &&& is_candidate(graph, scores, previous, current, best.unwrap().0)
                    &&& best.unwrap().1 == scores[(previous, current, best.unwrap().0)]
                    &&& forall|j: int|
                        0 <= j < index && successors[j] != best.unwrap().0 && is_candidate(
                            graph,
                            scores,
                            previous,
                            current,
                            #[trigger] successors[j],
                        ) ==> preferred(
                            self.policy,
                            best.unwrap().0,
                            best.unwrap().1,
                            successors[j],
                            scores[(previous, current, successors[j])],
                        )
                },
            decreases successors.len() - index,
        {
            let segment = successors[index];
            assert(successors@.contains(segment));
            if let Some(score) = self.scores.score(previous, current, segment) {
                match best {
                    Some((winner, lowest)) => {
                        if prefers(self.policy, &segment, score, &winner, lowest) {
                            best = Some((segment, score));
                        }
                    },
                    None => {
                        best = Some((segment, score));
                    },
                }
            }
            index = index + 1;
        }
        match best {
            Some((winner, _)) => {
                proof {
                    assert forall|other: Segment|
                        other != winner && #[trigger] is_candidate(
                            graph,
                            scores,
                            previous,
                            current,
                            other,
                        ) implies preferred(
                        self.policy,
                        winner,
                        scores[(previous, current, winner)],
                        other,
                        scores[(previous, current, other)],
                    ) by {
                        assert(successors@.contains(other));
                        let j = choose|j: int| 0 <= j < successors@.len() && successors@[j] == other;
                        assert(successors[j] == other);
                    }
                    assert(is_elected(graph, scores, self.policy, previous, current, winner));
                    let chosen = choose|next: Segment|
                        is_elected(graph, scores, self.policy, previous, current, next);
                    lemma_elected_unique(
                        graph,
                        scores,
                        self.policy,
                        previous,
                        current,
                        winner,
                        chosen,
                    );
                }
                Some(winner)
            },
            None => {
                proof {
                    assert forall|next: Segment|
                        !is_elected(graph, scores, self.policy, previous, current, next) by {
                        if is_candidate(graph, scores, previous, current, next) {
                            assert(successors@.contains(next));
                            let j = choose|j: int|
                                0 <= j < successors@.len() && successors@[j] == next;
                            assert(successors[j] == next);
                        }
                    }
                }
                None
            },
        }
    }
}

/// The tails of the segments, in their order.
pub open spec fn tails(segments: Seq<Segment>) -> Seq<Point> {
    Seq::new(segments.len(), |i: int| segments[i].0)
}

/// The walk that starts on `current`, reached from `previous`, with the
/// segments of `stack` behind it: it turns back where it would retrace a
/// segment of the stack in the opposite sense; it closes a path where it
/// meets a segment of the stack again, and yields the tails of the segments
/// from there on; it goes on with the elected successor otherwise, and ends
/// without a path where there is none.
pub open spec fn walk(
    graph: Map<Segment, Set<Segment>>,
    scores: Map<Turn, (i64, i64)>,
    policy: Policy,
    stack: Seq<Segment>,
    current: Segment,
    previous: Segment,
) -> Option<Seq<Point>>
    decreases graph.dom().difference(stack.to_set()).len(),
    when graph.dom().finite()
{
    if stack.contains(reversed(current)) {
        None
    } else if stack.contains(current) {
        Some(tails(stack.skip(stack.index_of(current))))
    } else {
        match elected(graph, scores, policy, previous, current) {
            Some(next) => {
                proof {
                    lemma_walk_goes_down(graph, scores, policy, stack, current, previous);
                }
                walk(graph, scores, policy, stack.push(current), next, current)
            },
            None => None,
        }
    }
}

/// Pushing a segment that has a successor and is not on the stack leaves
/// fewer segments of the graph off the stack.
pub proof fn lemma_walk_goes_down(
    graph: Map<Segment, Set<Segment>>,
    scores: Map<Turn, (i64, i64)>,
    policy: Policy,
    stack: Seq<Segment>,
    current: Segment,
    previous: Segment,
)
    requires
        graph.dom().finite(),
        !stack.contains(current),
        elected(graph, scores, policy, previous, current).is_some(),
    ensures
        graph.dom().difference(stack.push(current).to_set()).len() < graph.dom().difference(
            stack.to_set(),
        ).len(),
{
    let next = choose|next: Segment| is_elected(graph, scores, policy, previous, current, next);
    assert(is_candidate(graph, scores, previous, current, next));
    let before = graph.dom().difference(stack.to_set());
    let after = graph.dom().difference(stack.push(current).to_set());
    assert(before.contains(current)) by {
        if stack.to_set().contains(current) {
            assert(stack.contains(current));
        }
    }
    assert(after =~= before.remove(current)) by {
        assert forall|s: Segment| #[trigger] stack.push(current).to_set().contains(s) <==> (
        stack.to_set().contains(s) || s == current) by {
            if stack.to_set().contains(s) {
                let i = choose|i: int| 0 <= i < stack.len() && stack[i] == s;
                assert(stack.push(current)[i] == s);
            }
            if s == current {
                assert(stack.push(current)[stack.len() as int] == s);
            }
            if stack.push(current).to_set().contains(s) {
                let i = choose|i: int| 0 <= i < stack.push(current).len() && stack.push(
                    current,
                )[i] == s;
                if i < stack.len() {
                    assert(stack[i] == s);
                }
            }
        }
    }
}

/// Each segment of the stack is followed by one of its successors.
pub open spec fn is_chain(graph: Map<Segment, Set<Segment>>, stack: Seq<Segment>) -> bool {
    forall|i: int| 0 <= i < stack.len() - 1 ==> chained(graph, #[trigger] stack[i], stack[i + 1])
}

/// A path that a walk closes has at least three sides, where every
/// successor in the graph turns: the walk never steps straight back, so it
/// cannot close on the segment it just left nor on the one before.
pub proof fn lemma_walk_closes_three(
    graph: Map<Segment, Set<Segment>>,
    scores: Map<Turn, (i64, i64)>,
    policy: Policy,
    stack: Seq<Segment>,
    current: Segment,
    previous: Segment,
)
    requires
        graph.dom().finite(),
        turning(graph),
        stack.len() >= 1,
        stack.no_duplicates(),
        is_chain(graph, stack),
        chained(graph, stack.last(), current),
    ensures
        walk(graph, scores, policy, stack, current, previous).is_some() ==> walk(
            graph,
            scores,
            policy,
            stack,
            current,
            previous,
        ).unwrap().len() >= 3,
    decreases graph.dom().difference(stack.to_set()).len(),
{
    if stack.contains(reversed(current)) {
    } else if stack.contains(current) {
        let at = stack.index_of(current);
        assert(stack[at] == current);
        let last = stack.len() - 1;
        if at == last {
            assert(chained(graph, current, current));
        } else if at == last - 1 {
            assert(chained(graph, stack[at], stack[at + 1]));
            assert(stack[at + 1] == reversed(current));
        }
    } else {
        match elected(graph, scores, policy, previous, current) {
            Some(next) => {
                lemma_walk_goes_down(graph, scores, policy, stack, current, previous);
                let longer = stack.push(current);
                assert(is_elected(graph, scores, policy, previous, current, next));
                assert(is_candidate(graph, scores, previous, current, next));
                assert forall|i: int| 0 <= i < longer.len() - 1 implies chained(
                    graph,
                    #[trigger] longer[i],
                    longer[i + 1],
                ) by {
                    if i < stack.len() - 1 {
                        assert(chained(graph, stack[i], stack[i + 1]));
                    }
                }
                assert(longer.no_duplicates()) by {
                    assert forall|i: int, j: int|
                        0 <= i < longer.len() && 0 <= j < longer.len() && i != j implies longer[i]
                        != longer[j] by {
                        if i < stack.len() {
                            assert(stack.contains(stack[i]));
                        }
                        if j < stack.len() {
                            assert(stack.contains(stack[j]));
                        }
                    }
                }
                lemma_walk_closes_three(graph, scores, policy, longer, next, current);
            },
            None => {},
        }
    }
}

/// No segment stands twice in the list, and no two of its segments are one
/// segment walked in both senses.
pub open spec fn is_simple(segments: Seq<Segment>) -> bool {
    forall|i: int, j: int|
        0 <= i < segments.len() && 0 <= j < segments.len() && i != j ==> #[trigger] segments[i]
            != #[trigger] segments[j] && segments[i] != reversed(segments[j])
}

/// The segments go round: each is followed by one of its successors in the
/// graph, and the first follows the last.
pub open spec fn is_round(graph: Map<Segment, Set<Segment>>, segments: Seq<Segment>) -> bool {
    &&& segments.len() >= 1
    &&& is_chain(graph, segments)
    &&& chained(graph, segments.last(), segments.first())
}

/// A path that a walk closes follows the graph: its points are the tails of
/// segments that go round in the graph, none of them twice and none in both
/// senses.
pub proof fn lemma_walk_follows_graph(
    graph: Map<Segment, Set<Segment>>,
    scores: Map<Turn, (i64, i64)>,
    policy: Policy,
    stack: Seq<Segment>,
    current: Segment,
    previous: Segment,
)
    requires
        graph.dom().finite(),
        stack.len() >= 1,
        is_simple(stack),
        is_chain(graph, stack),
        chained(graph, stack.last(), current),
    ensures
        walk(graph, scores, policy, stack, current, previous).is_some() ==> exists|
            round: Seq<Segment>,
        |
            is_simple(round) && is_round(graph, round) && #[trigger] tails(round) == walk(
                graph,
                scores,
                policy,
                stack,
                current,
                previous,
            ).unwrap(),
    decreases graph.dom().difference(stack.to_set()).len(),
{
    if stack.contains(reversed(current)) {
    } else if stack.contains(current) {
        let at = stack.index_of(current);
        assert(stack[at] == current);
        let round = stack.skip(at);
        assert forall|i: int| 0 <= i < round.len() - 1 implies chained(
            graph,
            #[trigger] round[i],
            round[i + 1],
        ) by {
            assert(chained(graph, stack[at + i], stack[at + i + 1]));
        }
        assert(is_simple(round)) by {
            assert forall|i: int, j: int|
                0 <= i < round.len() && 0 <= j < round.len() && i != j implies #[trigger] round[i]
                != #[trigger] round[j] && round[i] != reversed(round[j]) by {
                assert(stack[at + i] != stack[at + j] && stack[at + i] != reversed(
                    stack[at + j],
                ));
            }
        }
        assert(round.last() == stack.last());
        assert(round.first() == current);
        assert(is_simple(round) && is_round(graph, round) && tails(round) == walk(
            graph,
            scores,
            policy,
            stack,
            current,
            previous,
        ).unwrap());
    } else {
        match elected(graph, scores, policy, previous, current) {
            Some(next) => {
                lemma_walk_goes_down(graph, scores, policy, stack, current, previous);
                let longer = stack.push(current);
                assert(is_elected(graph, scores, policy, previous, current, next));
                assert(is_candidate(graph, scores, previous, current, next));
                assert forall|i: int| 0 <= i < longer.len() - 1 implies chained(
                    graph,
                    #[trigger] longer[i],
                    longer[i + 1],
                ) by {
                    if i < stack.len() - 1 {
                        assert(chained(graph, stack[i], stack[i + 1]));
                    }
                }
                assert(is_simple(longer)) by {
                    assert forall|i: int, j: int|
                        0 <= i < longer.len() && 0 <= j < longer.len() && i
                            != j implies #[trigger] longer[i] != #[trigger] longer[j] && longer[i]
                        != reversed(longer[j]) by {
                        if i < stack.len() {
                            assert(stack.contains(stack[i]));
                        }
                        if j < stack.len() {
                            assert(stack.contains(stack[j]));
                        }
                        if i < stack.len() && j < stack.len() {
                            assert(stack[i] != stack[j] && stack[i] != reversed(stack[j]));
                        }
                    }
                }
                lemma_walk_follows_graph(graph, scores, policy, longer, next, current);
            },
            None => {},
        }
    }
}

/// A walk depends on the graph only through the successors of the segments
/// that it can reach: two graphs that agree on them give the same walk.
pub proof fn lemma_walks_agree(
    first: Map<Segment, Set<Segment>>,
    second: Map<Segment, Set<Segment>>,
    region: Set<Segment>,
    scores: Map<Turn, (i64, i64)>,
    policy: Policy,
    stack: Seq<Segment>,
    current: Segment,
    previous: Segment,
)
    requires
        first.dom().finite(),
        second.dom().finite(),
        agree_on(first, second, region),
        region.contains(current),
    ensures
        walk(first, scores, policy, stack, current, previous) == walk(
            second,
            scores,
            policy,
            stack,
            current,
            previous,
        ),
    decreases first.dom().difference(stack.to_set()).len(),
{
    if stack.contains(reversed(current)) {
    } else if stack.contains(current) {
    } else {
        assert forall|other: Segment|
            is_candidate(first, scores, previous, current, other) <==> is_candidate(
                second,
                scores,
                previous,
                current,
                other,
            ) by {
            assert(chained(first, current, other) <==> chained(second, current, other));
        }
        assert forall|next: Segment|
            is_elected(first, scores, policy, previous, current, next) <==> is_elected(
                second,
                scores,
                policy,
                previous,
                current,
                next,
            ) by {
            if is_elected(first, scores, policy, previous, current, next) {
                assert forall|other: Segment|
                    other != next && #[trigger] is_candidate(
                        second,
                        scores,
                        previous,
                        current,
                        other,
                    ) implies preferred(
                    policy,
                    next,
                    scores[(previous, current, next)],
                    other,
                    scores[(previous, current, other)],
                ) by {
                    assert(is_candidate(first, scores, previous, current, other));
                }
            }
            if is_elected(second, scores, policy, previous, current, next) {
                assert forall|other: Segment|
                    other != next && #[trigger] is_candidate(
                        first,
                        scores,
                        previous,
                        current,
                        other,
                    ) implies preferred(
                    policy,
                    next,
                    scores[(previous, current, next)],
                    other,
                    scores[(previous, current, other)],
                ) by {
                    assert(is_candidate(second, scores, previous, current, other));
                }
            }
        }
        let one = elected(first, scores, policy, previous, current);
        let other = elected(second, scores, policy, previous, current);
        if one.is_some() {
            let next = one.unwrap();
            assert(is_elected(first, scores, policy, previous, current, next));
            assert(is_elected(second, scores, policy, previous, current, next));
            assert(is_elected(second, scores, policy, previous, current, other.unwrap()));
            lemma_elected_unique(second, scores, policy, previous, current, next, other.unwrap());
            assert(is_candidate(first, scores, previous, current, next));
            assert(chained(first, current, next));
            lemma_walk_goes_down(first, scores, policy, stack, current, previous);
            lemma_walks_agree(
                first,
                second,
                region,
                scores,
                policy,
                stack.push(current),
                next,
                current,
            );
        } else {
            if other.is_some() {
                assert(is_elected(second, scores, policy, previous, current, other.unwrap()));
                assert(is_elected(first, scores, policy, previous, current, other.unwrap()));
            }
        }
    }
}

/// Some polygon of the list has exactly these vertices.
pub open spec fn known(paths: Seq<Polygon>, vertices: Set<Point>) -> bool {
    exists|k: int| 0 <= k < paths.len() && (#[trigger] paths[k]).vertices() == vertices
}

/// No two polygons of the list have the same vertices.
pub open spec fn distinct(paths: Seq<Polygon>) -> bool {
    forall|a: int, b: int|
        0 <= a < b < paths.len() ==> (#[trigger] paths[a]).vertices() != (
        #[trigger] paths[b]).vertices()
}

/// What a walk adds to the polygons found so far: nothing where it closes
/// no path, or a path whose vertices are those of a polygon found before;
/// else one polygon, at the end, made of the path as it was walked.
pub open spec fn collects(
    before: Seq<Polygon>,
    found: Option<Seq<Point>>,
    after: Seq<Polygon>,
) -> bool {
    match found {
        None => after == before,
        Some(cycle) => if known(before, cycle.to_set()) {
            after == before
        } else {
            &&& after.len() == before.len() + 1
            &&& after.drop_last() == before
            &&& after.last()@ == closing(cycle)
            &&& after.last().wf()
        },
    }
}

/// Adds `polygon` to the list unless a polygon with the same vertices is
/// there.
fn insert_unique(paths: &mut Vec<Polygon>, polygon: Polygon)
    requires
        distinct(old(paths)@),
    ensures
        distinct(final(paths)@),
        if known(old(paths)@, polygon.vertices()) {
            final(paths)@ == old(paths)@
        } else {
            final(paths)@ == old(paths)@.push(polygon)
        },
{
    let mut index: usize = 0;
    let ghost before = paths@;
    while index < paths.len()
        invariant
            index <= paths.len(),
            paths@ == before,
            distinct(before),
            forall|k: int| 0 <= k < index ==> (#[trigger] paths[k]).vertices() != polygon.vertices(),
        decreases paths.len() - index,
    {
        if paths[index].within(&polygon) && polygon.within(&paths[index]) {
            assert(paths[index as int].vertices() =~= polygon.vertices());
            return ;
        }
        index = index + 1;
    }
    paths.push(polygon);
}

/// The path closed by the walk that the strategy leads from `source` on to
/// `successor`, if it closes one.
pub open spec fn discovery(
    strategy: GreedyElectionStrategy,
    source: Segment,
    successor: Segment,
) -> Option<Seq<Point>> {
    walk(strategy.graph@, strategy.scores@, strategy.policy, seq![source], successor, source)
}

/// The polygon is the path closed by the walk that strategy `j` leads from
/// `source` on to `successor`, one of its successors in the graph.
pub open spec fn made_by(
    polygon: Polygon,
    graph: Map<Segment, Set<Segment>>,
    strategies: Seq<GreedyElectionStrategy>,
    source: Segment,
    successor: Segment,
    j: int,
) -> bool {
    &&& chained(graph, source, successor)
    &&& 0 <= j < strategies.len()
    &&& discovery(strategies[j], source, successor).is_some()
    &&& polygon@ == closing(discovery(strategies[j], source, successor).unwrap())
}

/// Every polygon of the list is a closed path that some walk has closed.
pub open spec fn sound(
    paths: Seq<Polygon>,
    graph: Map<Segment, Set<Segment>>,
    strategies: Seq<GreedyElectionStrategy>,
) -> bool {
    forall|k: int|
        0 <= k < paths.len() ==> (#[trigger] paths[k]).wf() && exists|
            source: Segment,
            successor: Segment,
            j: int,
        | #[trigger] made_by(paths[k], graph, strategies, source, successor, j)
}

/// Where the walk that strategy `j` leads from `source` on to `successor`
/// closes a path, a polygon of the list has the vertices of that path.
pub open spec fn covers(
    paths: Seq<Polygon>,
    strategies: Seq<GreedyElectionStrategy>,
    source: Segment,
    successor: Segment,
    j: int,
) -> bool {
    match discovery(strategies[j], source, successor) {
        Some(cycle) => known(paths, cycle.to_set()),
        None => true,
    }
}

/// Every strategy of the list works on a finite graph.
pub open spec fn finite_strategies(strategies: Seq<GreedyElectionStrategy>) -> bool {
    forall|j: int| 0 <= j < strategies.len() ==> (#[trigger] strategies[j]).graph@.dom().finite()
}

/// A list that only grew keeps every polygon it had.
pub proof fn lemma_known_extends(before: Seq<Polygon>, after: Seq<Polygon>, vertices: Set<Point>)
    requires
        before.is_prefix_of(after),
        known(before, vertices),
    ensures
        known(after, vertices),
{
    let k = choose|k: int| 0 <= k < before.len() && (#[trigger] before[k]).vertices() == vertices;
    assert(after[k] == before[k]);
}

/// A polygon found on a graph in which every successor turns has at least
/// three sides.
pub proof fn lemma_found_have_three_sides(
    polygon: Polygon,
    graph: Map<Segment, Set<Segment>>,
    strategies: Seq<GreedyElectionStrategy>,
    source: Segment,
    successor: Segment,
    j: int,
)
    requires
        made_by(polygon, graph, strategies, source, successor, j),
        strategies[j].graph@ == graph,
        graph.dom().finite(),
        turning(graph),
    ensures
        polygon@.len() >= 4,
        polygon@.first() == polygon@.last(),
{
    let stack = seq![source];
    assert(stack.last() == source);
    lemma_walk_closes_three(
        graph,
        strategies[j].scores@,
        strategies[j].policy,
        stack,
        successor,
        source,
    );
}

/// The sides of a polygon found are segments of the graph that go round,
/// none of them twice and none in both senses.
pub proof fn lemma_found_follow_the_graph(
    polygon: Polygon,
    graph: Map<Segment, Set<Segment>>,
    strategies: Seq<GreedyElectionStrategy>,
    source: Segment,
    successor: Segment,
    j: int,
)
    requires
        made_by(polygon, graph, strategies, source, successor, j),
        strategies[j].graph@ == graph,
        graph.dom().finite(),
    ensures
        exists|round: Seq<Segment>|
            is_simple(round) && is_round(graph, round) && polygon@ == closing(
                #[trigger] tails(round),
            ),
{
    let stack = seq![source];
    assert(stack.last() == source);
    lemma_walk_follows_graph(
        graph,
        strategies[j].scores@,
        strategies[j].policy,
        stack,
        successor,
        source,
    );
    let cycle = discovery(strategies[j], source, successor).unwrap();
    let round = choose|round: Seq<Segment>|
        is_simple(round) && is_round(graph, round) && #[trigger] tails(round) == cycle;
    assert(polygon@ == closing(tails(round)));
}

/// Two traversals of one graph under the same strategies find the same
/// polygons, whatever the order in which they took the segments: every
/// polygon of the one has its vertices in a polygon of the other.
pub proof fn lemma_runs_agree(
    first: Seq<Polygon>,
    second: Seq<Polygon>,
    graph: Map<Segment, Set<Segment>>,
    strategies: Seq<GreedyElectionStrategy>,
    k: int,
)
    requires
        sound(first, graph, strategies),
        forall|source: Segment, successor: Segment, j: int|
            chained(graph, source, successor) && 0 <= j < strategies.len() ==> #[trigger] covers(
                second,
                strategies,
                source,
                successor,
                j,
            ),
        0 <= k < first.len(),
    ensures
        known(second, first[k].vertices()),
{
    let (source, successor, j) = choose|source: Segment, successor: Segment, j: int| #[trigger]
        made_by(first[k], graph, strategies, source, successor, j);
    assert(made_by(first[k], graph, strategies, source, successor, j));
    assert(covers(second, strategies, source, successor, j));
    let cycle = discovery(strategies[j], source, successor).unwrap();
    assert(sound(first, graph, strategies));
    assert(first[k].wf());
    assert(closing(cycle).len() == cycle.len() + 1);
    if cycle.len() == 0 {
        // a closed path of one point would be no polygon
        assert(first[k]@.len() == 1);
    }
    lemma_closing_vertices(cycle);
}

/// A traversal instance recursively visits a graph and extracts its polygons
/// according to specific policies.
pub struct Traversal<'a> {
    graph: &'a SegmentGraph,
    stack: Vec<Segment>,
    depth: DepthMap,
    paths: Vec<Polygon>,
}

impl<'a> Traversal<'a> {
    /// The graph that is traversed.
    pub closed spec fn graph(&self) -> &'a SegmentGraph {
        self.graph
    }

    /// The segments on the path that is being walked.
    pub closed spec fn stack(&self) -> Seq<Segment> {
        self.stack@
    }

    /// The polygons found so far.
    pub closed spec fn paths(&self) -> Seq<Polygon> {
        self.paths@
    }

    /// What holds of every traversal: no segment is twice on the stack, the
    /// position of each is recorded, and no two polygons found have the same
    /// vertices.
    pub closed spec fn wf(&self) -> bool {
        &&& self.stack@.no_duplicates()
        &&& self.depth@.dom() == self.stack@.to_set()
        &&& forall|i: int|
            0 <= i < self.stack@.len() ==> self.depth@[#[trigger] self.stack@[i]] == i
        &&& distinct(self.paths@)
    }

    /// Instantiates a traversal from a [SegmentGraph] to construct polygons:
    /// nothing is on its stack and nothing is found yet.
    pub fn from(graph: &'a SegmentGraph) -> (traversal: Self)
        ensures
            traversal.wf(),
            traversal.graph() == graph,
            traversal.stack() == Seq::<Segment>::empty(),
            traversal.paths() == Seq::<Polygon>::empty(),
    {
        let traversal = Traversal {
            graph,
            stack: Vec::new(),
            depth: DepthMap::new(),
            paths: Vec::new(),
        };
        assert(traversal.depth@.dom() =~= traversal.stack@.to_set());
        traversal
    }

    /// Recursive traversal of `current` segment from `previous` where the
    /// strategy chooses which candidate will be next.
    pub fn traverse(
        &mut self,
        current: &Segment,
        previous: &Segment,
        strategy: &GreedyElectionStrategy,
    ) -> (status: Status)
        requires
            old(self).wf(),
            strategy.graph@.dom().finite(),
        ensures
            final(self).wf(),
            final(self).graph() == old(self).graph(),
            final(self).stack() == old(self).stack(),
            collects(
                old(self).paths(),
                walk(
                    strategy.graph@,
                    strategy.scores@,
                    strategy.policy,
                    old(self).stack(),
                    *current,
                    *previous,
                ),
                final(self).paths(),
            ),
            status == if old(self).stack().contains(reversed(*current)) {
                Status::Backtracking
            } else if old(self).stack().contains(*current) {
                Status::PathClosing
            } else {
                Status::Exploring
            },
        decreases strategy.graph@.dom().difference(old(self).stack().to_set()).len(),
    {
        let ghost stack = self.stack@;
        let ghost depth = self.depth@;
        if self.depth.contains_key(&(current.1, current.0)) {
            // we are traversing an already explored segment by walking on it
            // in the opposite sense thus we must backtrack
            assert(stack.to_set().contains(reversed(*current)));
            assert(stack.contains(reversed(*current)));
            assert(walk(
                strategy.graph@,
                strategy.scores@,
                strategy.policy,
                stack,
                *current,
                *previous,
            ).is_none());
            Status::Backtracking
        } else if let Some(position) = self.depth.get(current) {
            // we are visiting an already visited segment, this means we are
            // closing a path
            assert(stack.to_set().contains(*current));
            assert(!stack.to_set().contains(reversed(*current)));
            let ghost start = choose|i: int| 0 <= i < stack.len() && stack[i] == *current;
            assert(depth[stack[start]] == start);
            assert(stack.index_of(*current) == start) by {
                let found = stack.index_of(*current);
                assert(stack[found] == *current);
            }
            let mut vertices: Vec<Point> = Vec::new();
            let mut index: usize = position;
            while index < self.stack.len()
                invariant
                    position <= index <= self.stack.len(),
                    self.stack@ == stack,
                    vertices@ == tails(stack.skip(position as int)).take(index - position),
                decreases self.stack.len() - index,
            {
                vertices.push(self.stack[index].0);
                assert(vertices@ =~= tails(stack.skip(position as int)).take(index + 1 - position));
                index = index + 1;
            }
            let ghost cycle = tails(stack.skip(position as int));
            assert(vertices@ =~= cycle);
            proof {
                lemma_closing_vertices(cycle);
            }
            // we save the detected polygon and we go back one level
            let polygon = Polygon::from(vertices, false);
            assert(polygon.vertices() == cycle.to_set());
            assert(stack.contains(*current));
            assert(!stack.contains(reversed(*current)));
            assert(walk(
                strategy.graph@,
                strategy.scores@,
                strategy.policy,
                stack,
                *current,
                *previous,
            ) == Some(cycle));
            let ghost found = self.paths@;
            insert_unique(&mut self.paths, polygon);
            assert(collects(found, Some(cycle), self.paths@)) by {
                if !known(found, cycle.to_set()) {
                    assert(self.paths@.drop_last() =~= found);
                }
            }
            Status::PathClosing
        } else {
            assert(!stack.contains(*current)) by {
                if stack.contains(*current) {
                    assert(stack.to_set().contains(*current));
                }
            }
            assert(!stack.contains(reversed(*current))) by {
                if stack.contains(reversed(*current)) {
                    assert(stack.to_set().contains(reversed(*current)));
                }
            }
            // otherwise we explore the new segment by pushing it onto the
            // stack
            let position = self.stack.len();
            self.depth.insert(*current, position);
            self.stack.push(*current);
            proof {
                let longer = stack.push(*current);
                assert(self.depth@.dom() =~= longer.to_set()) by {
                    assert forall|s: Segment| #[trigger]
                        longer.to_set().contains(s) <==> stack.to_set().contains(s) || s
                            == *current by {
                        if stack.to_set().contains(s) {
                            let i = choose|i: int| 0 <= i < stack.len() && stack[i] == s;
                            assert(longer[i] == s);
                        }
                        if s == *current {
                            assert(longer[stack.len() as int] == s);
                        }
                        if longer.to_set().contains(s) {
                            let i = choose|i: int| 0 <= i < longer.len() && longer[i] == s;
                            if i < stack.len() {
                                assert(stack[i] == s);
                            }
                        }
                    }
                }
                assert forall|i: int| 0 <= i < longer.len() implies self.depth@[#[trigger] longer[i]]
                    == i by {
                    if i < stack.len() {
                        assert(longer[i] == stack[i]);
                        assert(stack.to_set().contains(stack[i]));
                    }
                }
                assert(longer.no_duplicates()) by {
                    assert forall|i: int, j: int|
                        0 <= i < longer.len() && 0 <= j < longer.len() && i != j implies longer[i]
                        != longer[j] by {
                        if i < stack.len() {
                            assert(stack.contains(stack[i]));
                        }
                        if j < stack.len() {
                            assert(stack.contains(stack[j]));
                        }
                    }
                }
            }
            let ghost found = self.paths@;
            let ghost outcome = walk(
                strategy.graph@,
                strategy.scores@,
                strategy.policy,
                stack,
                *current,
                *previous,
            );
            // chooses the next segment that minimizes the criterion
            if let Some(successor) = strategy.elect(*previous, *current) {
                assert(outcome == walk(
                    strategy.graph@,
                    strategy.scores@,
                    strategy.policy,
                    stack.push(*current),
                    successor,
                    *current,
                ));
                proof {
                    lemma_walk_goes_down(
                        strategy.graph@,
                        strategy.scores@,
                        strategy.policy,
                        stack,
                        *current,
                        *previous,
                    );
                }
                // and recursively traverses it
                self.traverse(&successor, current, strategy);
            } else {
                assert(outcome.is_none());
            }
            assert(collects(found, outcome, self.paths@));
            // removes `segment` which corresponds to `current` from the
            // recursion stack
            if let Some(segment) = self.stack.pop() {
                self.depth.remove(&segment);
            }
            proof {
                assert(self.stack@ =~= stack);
                assert(self.depth@ =~= depth) by {
                    assert(!depth.contains_key(*current));
                }
            }
            // `current` has been exhaustively explored and we can go back
            // one level
            Status::Exploring
        }
    }

    /// Walks from `source`, which is alone on the stack, on to `successor`
    /// under each strategy in turn.
    fn walk_pair(
        &mut self,
        source: &Segment,
        successor: &Segment,
        strategies: &Vec<GreedyElectionStrategy>,
    )
        requires
            old(self).wf(),
            old(self).stack() == seq![*source],
            finite_strategies(strategies@),
            chained(old(self).graph()@, *source, *successor),
            sound(old(self).paths(), old(self).graph()@, strategies@),
        ensures
            final(self).wf(),
            final(self).graph() == old(self).graph(),
            final(self).stack() == old(self).stack(),
            old(self).paths().is_prefix_of(final(self).paths()),
            sound(final(self).paths(), final(self).graph()@, strategies@),
            forall|j: int|
                0 <= j < strategies.len() ==> #[trigger] covers(
                    final(self).paths(),
                    strategies@,
                    *source,
                    *successor,
                    j,
                ),
    {
        let mut index: usize = 0;
        while index < strategies.len()
            invariant
                index <= strategies.len(),
                self.wf(),
                self.graph() == old(self).graph(),
                self.stack() == seq![*source],
                finite_strategies(strategies@),
                chained(self.graph()@, *source, *successor),
                old(self).paths().is_prefix_of(self.paths()),
                sound(self.paths(), self.graph()@, strategies@),
                forall|j: int|
                    0 <= j < index ==> #[trigger] covers(
                        self.paths(),
                        strategies@,
                        *source,
                        *successor,
                        j,
                    ),
            decreases strategies.len() - index,
        {
            let ghost before = self.paths();
            // recursive traversal from `successor` on
            self.traverse(successor, source, &strategies[index]);
            proof {
                let after = self.paths();
                let found = discovery(strategies@[index as int], *source, *successor);
                assert(collects(before, found, after));
                assert(before.is_prefix_of(after)) by {
                    if after != before {
                        assert(after.drop_last() == before);
                    }
                }
                assert forall|k: int| 0 <= k < after.len() implies (#[trigger] after[k]).wf()
                    && exists|a: Segment, b: Segment, j: int| #[trigger]
                    made_by(after[k], self.graph()@, strategies@, a, b, j) by {
                    if k < before.len() {
                        assert(after[k] == before[k]);
                    } else {
                        assert(after.drop_last() == before);
                        assert(after[k] == after.last());
                        assert(made_by(
                            after[k],
                            self.graph()@,
                            strategies@,
                            *source,
                            *successor,
                            index as int,
                        ));
                    }
                }
                assert forall|j: int| 0 <= j < index + 1 implies #[trigger] covers(
                    after,
                    strategies@,
                    *source,
                    *successor,
                    j,
                ) by {
                    match discovery(strategies@[j], *source, *successor) {
                        Some(cycle) => {
                            if j < index {
                                assert(covers(before, strategies@, *source, *successor, j));
                                lemma_known_extends(before, after, cycle.to_set());
                            } else if known(before, cycle.to_set()) {
                                lemma_known_extends(before, after, cycle.to_set());
                            } else {
                                lemma_closing_vertices(cycle);
                                assert(after[after.len() - 1].vertices() == cycle.to_set());
                            }
                        },
                        None => {},
                    }
                }
            }
            index = index + 1;
        }
    }

    /// Walks from `source` on to each of its successors under each strategy.
    fn walk_source(&mut self, source: &Segment, strategies: &Vec<GreedyElectionStrategy>)
        requires
            old(self).wf(),
            old(self).stack() == Seq::<Segment>::empty(),
            finite_strategies(strategies@),
            sound(old(self).paths(), old(self).graph()@, strategies@),
        ensures
            final(self).wf(),
            final(self).graph() == old(self).graph(),
            final(self).stack() == old(self).stack(),
            old(self).paths().is_prefix_of(final(self).paths()),
            sound(final(self).paths(), final(self).graph()@, strategies@),
            forall|successor: Segment, j: int|
                chained(final(self).graph()@, *source, successor) && 0 <= j < strategies.len()
                    ==> #[trigger] covers(final(self).paths(), strategies@, *source, successor, j),
    {
        let successors = self.graph.successors(source);
        assert forall|next: Segment|
            successors@.contains(next) <==> #[trigger] chained(self.graph()@, *source, next) by {
            assert(self.graph.connects(*source, next) == chained(self.graph()@, *source, next));
        }
        // the source is put at the base of the recursion stack
        self.depth.insert(*source, 0);
        self.stack.push(*source);
        proof {
            assert(self.stack@ =~= seq![*source]);
            assert(self.depth@.dom() =~= self.stack@.to_set()) by {
                assert forall|s: Segment| self.stack@.to_set().contains(s) <==> s == *source by {
                    if s == *source {
                        assert(self.stack@[0] == s);
                    }
                }
            }
        }
        let mut index: usize = 0;
        // naively tries every successor to have a `previous` segment in
        // further recursive calls
        while index < successors.len()
            invariant
                index <= successors.len(),
                self.wf(),
                self.graph() == old(self).graph(),
                self.stack() == seq![*source],
                finite_strategies(strategies@),
                forall|next: Segment|
                    successors@.contains(next) <==> #[trigger] chained(
                        self.graph()@,
                        *source,
                        next,
                    ),
                old(self).paths().is_prefix_of(self.paths()),
                sound(self.paths(), self.graph()@, strategies@),
                forall|i: int, j: int|
                    0 <= i < index && 0 <= j < strategies.len() ==> #[trigger] covers(
                        self.paths(),
                        strategies@,
                        *source,
                        successors[i],
                        j,
                    ),
            decreases successors.len() - index,
        {
            let ghost before = self.paths();
            assert(successors@.contains(successors[index as int]));
            // applies every traversal strategy
            self.walk_pair(source, &successors[index], strategies);
            proof {
                let after = self.paths();
                assert forall|i: int, j: int|
                    0 <= i < index + 1 && 0 <= j < strategies.len() implies #[trigger] covers(
                    after,
                    strategies@,
                    *source,
                    successors[i],
                    j,
                ) by {
                    if i < index {
                        assert(covers(before, strategies@, *source, successors[i], j));
                        match discovery(strategies@[j], *source, successors[i]) {
                            Some(cycle) => {
                                lemma_known_extends(before, after, cycle.to_set());
                            },
                            None => {},
                        }
                    }
                }
            }
            index = index + 1;
        }
        // removes the source from the root of the stack
        if let Some(segment) = self.stack.pop() {
            self.depth.remove(&segment);
        }
        proof {
            assert(self.stack@ =~= Seq::<Segment>::empty());
            assert(self.depth@.dom() =~= self.stack@.to_set());
            assert forall|successor: Segment, j: int|
                chained(self.graph()@, *source, successor) && 0 <= j
                    < strategies.len() implies #[trigger] covers(
                self.paths(),
                strategies@,
                *source,
                successor,
                j,
            ) by {
                assert(successors@.contains(successor));
                let i = choose|i: int| 0 <= i < successors@.len() && successors@[i] == successor;
                assert(successors[i] == successor);
            }
        }
    }

    /// Constructs a set of unique polygons from the graph by performing a
    /// policy-guided graph traversal: from every segment on to each of its
    /// successors, under each strategy.  Every polygon returned is a path
    /// that one of these walks has closed, every path that one of them
    /// closes has its vertices in a polygon returned, and no two polygons
    /// returned have the same vertices.
    ///
    /// The procedure does not branch: the walks are as many as the
    /// connections between segments, and each is as long as the path it
    /// follows.
    pub fn run(self, strategies: &Vec<GreedyElectionStrategy>) -> (polygons: Vec<Polygon>)
        requires
            self.wf(),
            self.stack() == Seq::<Segment>::empty(),
            self.paths() == Seq::<Polygon>::empty(),
            finite_strategies(strategies@),
        ensures
            distinct(polygons@),
            sound(polygons@, self.graph()@, strategies@),
            forall|source: Segment, successor: Segment, j: int|
                chained(self.graph()@, source, successor) && 0 <= j < strategies.len()
                    ==> #[trigger] covers(polygons@, strategies@, source, successor, j),
    {
        let mut traversal = self;
        let sources = traversal.graph.segments();
        let ghost graph = traversal.graph()@;
        let mut index: usize = 0;
        // traverses the whole graph using all strategies
        while index < sources.len()
            invariant
                index <= sources.len(),
                traversal.wf(),
                traversal.graph()@ == graph,
                traversal.stack() == Seq::<Segment>::empty(),
                sources@.to_set() == graph.dom(),
                finite_strategies(strategies@),
                sound(traversal.paths(), graph, strategies@),
                forall|i: int, successor: Segment, j: int|
                    0 <= i < index && chained(graph, sources[i], successor) && 0 <= j
                        < strategies.len() ==> #[trigger] covers(
                        traversal.paths(),
                        strategies@,
                        sources[i],
                        successor,
                        j,
                    ),
            decreases sources.len() - index,
        {
            let ghost before = traversal.paths();
            traversal.walk_source(&sources[index], strategies);
            proof {
                let after = traversal.paths();
                assert forall|i: int, successor: Segment, j: int|
                    0 <= i < index + 1 && chained(graph, sources[i], successor) && 0 <= j
                        < strategies.len() implies #[trigger] covers(
                    after,
                    strategies@,
                    sources[i],
                    successor,
                    j,
                ) by {
                    if i < index {
                        assert(covers(before, strategies@, sources[i], successor, j));
                        match discovery(strategies@[j], sources[i], successor) {
                            Some(cycle) => {
                                lemma_known_extends(before, after, cycle.to_set());
                            },
                            None => {},
                        }
                    }
                }
            }
            index = index + 1;
        }
        proof {
            assert forall|source: Segment, successor: Segment, j: int|
                chained(graph, source, successor) && 0 <= j
                    < strategies.len() implies #[trigger] covers(
                traversal.paths(),
                strategies@,
                source,
                successor,
                j,
            ) by {
                assert(sources@.to_set().contains(source));
                let i = choose|i: int| 0 <= i < sources@.len() && sources@[i] == source;
                assert(sources[i] == source);
            }
        }
        // yields found polygons
        traversal.paths
    }
}

/// The two strategies that [traverse] applies, one after the other.
pub open spec fn both_policies<'a>(graph: &'a SegmentGraph, scores: &'a Scores) -> Seq<
    GreedyElectionStrategy<'a>,
> {
    seq![
        (GreedyElectionStrategy { graph, scores, policy: Policy::Theta }),
        (GreedyElectionStrategy { graph, scores, policy: Policy::Coplanarity }),
    ]
}

/// Applies two distinct policies based on clockwise angle between segments
/// and coplanarity to extract polygons.
///
/// Two different criteria are employed to chose on which segment to recur
/// when following a path.  First, we pick the next segment minimizing the
/// pair `(theta, coplanarity)`.  Second, we repeat the recursive traversal
/// by constructing other polygons using as criterion the minimization of the
/// opposite pair, that is `(coplanarity, theta)`.  This helps identify
/// polygons that vertically overlap but are distinct.
pub fn traverse(graph: &SegmentGraph, scores: &Scores) -> (polygons: Vec<Polygon>)
    requires
        graph@.dom().finite(),
    ensures
        distinct(polygons@),
        sound(polygons@, graph@, both_policies(graph, scores)),
        forall|source: Segment, successor: Segment, j: int|
            chained(graph@, source, successor) && 0 <= j < 2 ==> #[trigger] covers(
                polygons@,
                both_policies(graph, scores),
                source,
                successor,
                j,
            ),
{
    let mut strategies: Vec<GreedyElectionStrategy> = Vec::new();
    // first strategy to elect successor segment prioritizes the clockwise
    // angle projected on the xy plane
    strategies.push(GreedyElectionStrategy::from(graph, scores, Policy::Theta));
    // second strategy to elect successor segment prioritizes the coplanarity
    strategies.push(GreedyElectionStrategy::from(graph, scores, Policy::Coplanarity));
    assert(strategies@ =~= both_policies(graph, scores));
    // by default we traverse using two strategies to detect polygons
    Traversal::from(graph).run(&strategies)
}

} // verus!
