use crate::point::{Point, Segment};
use vstd::prelude::*;

verus! {

/// A hash set of points, kept in a `hashbrown::HashSet`.
#[verifier::external_body]
pub struct PointSet {
    inner: hashbrown::HashSet<(i64, i64, i64)>,
}

/// The points that a [PointSet] holds.
pub uninterp spec fn point_set_items(set: PointSet) -> Set<Point>;

impl View for PointSet {
    type V = Set<Point>;

    open spec fn view(&self) -> Set<Point> {
        point_set_items(*self)
    }
}

impl PointSet {
    /// `hashbrown::HashSet::new`: the set it returns holds nothing.
    #[verifier::external_body]
    pub(crate) fn new() -> (r: PointSet)
        ensures
            point_set_items(r) == Set::<Point>::empty(),
    {
        PointSet { inner: hashbrown::HashSet::new() }
    }

    /// `hashbrown::HashSet::insert`: afterwards the set holds `point` besides
    /// what it held, and the result tells whether `point` was new.
    #[verifier::external_body]
    pub(crate) fn insert(&mut self, point: Point) -> (r: bool)
        ensures
            point_set_items(*final(self)) == point_set_items(*old(self)).insert(point),
            r == !point_set_items(*old(self)).contains(point),
    {
        self.inner.insert((point.x, point.y, point.z))
    }

    /// `hashbrown::HashSet::remove`: afterwards the set holds what it held
    /// but `point`, and the result tells whether `point` was there.
    #[verifier::external_body]
    pub(crate) fn remove(&mut self, point: &Point) -> (r: bool)
        ensures
            point_set_items(*final(self)) == point_set_items(*old(self)).remove(*point),
            r == point_set_items(*old(self)).contains(*point),
    {
        self.inner.remove(&(point.x, point.y, point.z))
    }

    /// `hashbrown::HashSet::contains`: tells whether the set holds `point`.
    #[verifier::external_body]
    pub(crate) fn contains(&self, point: &Point) -> (r: bool)
        ensures
            r == point_set_items(*self).contains(*point),
    {
        self.inner.contains(&(point.x, point.y, point.z))
    }

    /// `hashbrown::HashSet::len`: the number of points held.
    #[verifier::external_body]
    pub(crate) fn len(&self) -> (r: usize)
        ensures
            r == point_set_items(*self).len(),
    {
        self.inner.len()
    }

    /// `hashbrown::HashSet::iter`, collected: every point held, each once,
    /// in an order that is not fixed.
    #[verifier::external_body]
    pub(crate) fn to_vec(&self) -> (r: Vec<Point>)
        ensures
            r@.no_duplicates(),
            r@.to_set() == point_set_items(*self),
    {
        self.inner.iter().map(|&(x, y, z)| Point { x, y, z }).collect()
    }
}

/// A hash map from points to sets of points, kept in a `hashbrown::HashMap`.
#[verifier::external_body]
pub struct PointMap {
    inner: hashbrown::HashMap<(i64, i64, i64), PointSet>,
}

/// The entries that a [PointMap] holds.
pub uninterp spec fn point_map_items(map: PointMap) -> Map<Point, PointSet>;

impl PointMap {
    /// `hashbrown::HashMap::new`: the map it returns holds nothing.
    #[verifier::external_body]
    pub(crate) fn new() -> (r: PointMap)
        ensures
            point_map_items(r) == (Map::<Point, PointSet>::empty()),
    {
        PointMap { inner: hashbrown::HashMap::new() }
    }

    /// `hashbrown::HashMap::insert`: afterwards `key` maps to `value` and the
    /// other entries are as before; the result is what `key` mapped to, if
    /// anything.
    #[verifier::external_body]
    pub(crate) fn insert(&mut self, key: Point, value: PointSet) -> (r: Option<PointSet>)
        ensures
            point_map_items(*final(self)) == point_map_items(*old(self)).insert(key, value),
            r == if point_map_items(*old(self)).contains_key(key) {
                Some(point_map_items(*old(self))[key])
            } else {
                None
            },
    {
        self.inner.insert((key.x, key.y, key.z), value)
    }

    /// `hashbrown::HashMap::remove`: afterwards `key` has no entry and the
    /// other entries are as before; the result is what `key` mapped to, if
    /// anything.
    #[verifier::external_body]
    pub(crate) fn remove(&mut self, key: &Point) -> (r: Option<PointSet>)
        ensures
            point_map_items(*final(self)) == point_map_items(*old(self)).remove(*key),
            r == if point_map_items(*old(self)).contains_key(*key) {
                Some(point_map_items(*old(self))[*key])
            } else {
                None
            },
    {
        self.inner.remove(&(key.x, key.y, key.z))
    }

    /// `hashbrown::HashMap::get`: a reference to what `key` maps to, if
    /// anything.
    #[verifier::external_body]
    pub(crate) fn get(&self, key: &Point) -> (r: Option<&PointSet>)
        ensures
            r == if point_map_items(*self).contains_key(*key) {
                Some(&point_map_items(*self)[*key])
            } else {
                None
            },
    {
        self.inner.get(&(key.x, key.y, key.z))
    }

    /// `hashbrown::HashMap::keys`, collected: every key, each once, in an
    /// order that is not fixed.
    #[verifier::external_body]
    pub(crate) fn keys(&self) -> (r: Vec<Point>)
        ensures
            r@.no_duplicates(),
            r@.to_set() == point_map_items(*self).dom(),
    {
        self.inner.keys().map(|&(x, y, z)| Point { x, y, z }).collect()
    }
}

/// A hash set of segments, kept in a `hashbrown::HashSet`.
#[verifier::external_body]
pub struct SegmentSet {
    inner: hashbrown::HashSet<((i64, i64, i64), (i64, i64, i64))>,
}

/// The segments that a [SegmentSet] holds.
pub uninterp spec fn segment_set_items(set: SegmentSet) -> Set<Segment>;

impl View for SegmentSet {
    type V = Set<Segment>;

    open spec fn view(&self) -> Set<Segment> {
        segment_set_items(*self)
    }
}

impl SegmentSet {
    /// `hashbrown::HashSet::new`: the set it returns holds nothing.
    #[verifier::external_body]
    pub(crate) fn new() -> (r: SegmentSet)
        ensures
            segment_set_items(r) == Set::<Segment>::empty(),
    {
        SegmentSet { inner: hashbrown::HashSet::new() }
    }

    /// `hashbrown::HashSet::insert`: afterwards the set holds `segment`
    /// besides what it held, and the result tells whether `segment` was new.
    #[verifier::external_body]
    pub(crate) fn insert(&mut self, segment: Segment) -> (r: bool)
        ensures
            segment_set_items(*final(self)) == segment_set_items(*old(self)).insert(segment),
            r == !segment_set_items(*old(self)).contains(segment),
    {
        let (u, v) = segment;
        self.inner.insert(((u.x, u.y, u.z), (v.x, v.y, v.z)))
    }

    /// `hashbrown::HashSet::iter`, collected: every segment held, each once,
    /// in an order that is not fixed.
    #[verifier::external_body]
    pub(crate) fn to_vec(&self) -> (r: Vec<Segment>)
        ensures
            r@.no_duplicates(),
            r@.to_set() == segment_set_items(*self),
    {
        self.inner.iter().map(
            |&((a, b, c), (d, e, f))| (Point { x: a, y: b, z: c }, Point { x: d, y: e, z: f }),
        ).collect()
    }
}

/// A hash map from segments to sets of segments, kept in a
/// `hashbrown::HashMap`.
#[verifier::external_body]
pub struct SegmentMap {
    inner: hashbrown::HashMap<((i64, i64, i64), (i64, i64, i64)), SegmentSet>,
}

/// The entries that a [SegmentMap] holds.
pub uninterp spec fn segment_map_items(map: SegmentMap) -> Map<Segment, SegmentSet>;

impl SegmentMap {
    /// `hashbrown::HashMap::new`: the map it returns holds nothing.
    #[verifier::external_body]
    pub(crate) fn new() -> (r: SegmentMap)
        ensures
            segment_map_items(r) == (Map::<Segment, SegmentSet>::empty()),
    {
        SegmentMap { inner: hashbrown::HashMap::new() }
    }

    /// `hashbrown::HashMap::insert`: afterwards `key` maps to `value` and the
    /// other entries are as before; the result is what `key` mapped to, if
    /// anything.
    #[verifier::external_body]
    pub(crate) fn insert(&mut self, key: Segment, value: SegmentSet) -> (r: Option<SegmentSet>)
        ensures
            segment_map_items(*final(self)) == segment_map_items(*old(self)).insert(key, value),
            r == if segment_map_items(*old(self)).contains_key(key) {
                Some(segment_map_items(*old(self))[key])
            } else {
                None
            },
    {
        let (u, v) = key;
        self.inner.insert(((u.x, u.y, u.z), (v.x, v.y, v.z)), value)
    }

    /// `hashbrown::HashMap::remove`: afterwards `key` has no entry and the
    /// other entries are as before; the result is what `key` mapped to, if
    /// anything.
    #[verifier::external_body]
    pub(crate) fn remove(&mut self, key: &Segment) -> (r: Option<SegmentSet>)
        ensures
            segment_map_items(*final(self)) == segment_map_items(*old(self)).remove(*key),
            r == if segment_map_items(*old(self)).contains_key(*key) {
                Some(segment_map_items(*old(self))[*key])
            } else {
                None
            },
    {
        let (u, v) = *key;
        self.inner.remove(&((u.x, u.y, u.z), (v.x, v.y, v.z)))
    }

    /// `hashbrown::HashMap::get`: a reference to what `key` maps to, if
    /// anything.
    #[verifier::external_body]
    pub(crate) fn get(&self, key: &Segment) -> (r: Option<&SegmentSet>)
        ensures
            r == if segment_map_items(*self).contains_key(*key) {
                Some(&segment_map_items(*self)[*key])
            } else {
                None
            },
    {
        let (u, v) = *key;
        self.inner.get(&((u.x, u.y, u.z), (v.x, v.y, v.z)))
    }

    /// `hashbrown::HashMap::keys`, collected: every key, each once, in an
    /// order that is not fixed.
    #[verifier::external_body]
    pub(crate) fn keys(&self) -> (r: Vec<Segment>)
        ensures
            r@.no_duplicates(),
            r@.to_set() == segment_map_items(*self).dom(),
    {
        self.inner.keys().map(
            |&((a, b, c), (d, e, f))| (Point { x: a, y: b, z: c }, Point { x: d, y: e, z: f }),
        ).collect()
    }
}

/// A hash map from segments to positions, kept in a `hashbrown::HashMap`.
#[verifier::external_body]
pub struct DepthMap {
    inner: hashbrown::HashMap<((i64, i64, i64), (i64, i64, i64)), usize>,
}

/// The entries that a [DepthMap] holds.
pub uninterp spec fn depth_map_items(map: DepthMap) -> Map<Segment, usize>;

impl View for DepthMap {
    type V = Map<Segment, usize>;

    open spec fn view(&self) -> Map<Segment, usize> {
        depth_map_items(*self)
    }
}

impl DepthMap {
    /// `hashbrown::HashMap::new`: the map it returns holds nothing.
    #[verifier::external_body]
    pub(crate) fn new() -> (r: DepthMap)
        ensures
            depth_map_items(r) == (Map::<Segment, usize>::empty()),
    {
        DepthMap { inner: hashbrown::HashMap::new() }
    }

    /// `hashbrown::HashMap::insert`: afterwards `key` maps to `value` and the
    /// other entries are as before; the result is what `key` mapped to, if
    /// anything.
    #[verifier::external_body]
    pub(crate) fn insert(&mut self, key: Segment, value: usize) -> (r: Option<usize>)
        ensures
            depth_map_items(*final(self)) == depth_map_items(*old(self)).insert(key, value),
            r == if depth_map_items(*old(self)).contains_key(key) {
                Some(depth_map_items(*old(self))[key])
            } else {
                None
            },
    {
        let (u, v) = key;
        self.inner.insert(((u.x, u.y, u.z), (v.x, v.y, v.z)), value)
    }

    /// `hashbrown::HashMap::remove`: afterwards `key` has no entry and the
    /// other entries are as before; the result is what `key` mapped to, if
    /// anything.
    #[verifier::external_body]
    pub(crate) fn remove(&mut self, key: &Segment) -> (r: Option<usize>)
        ensures
            depth_map_items(*final(self)) == depth_map_items(*old(self)).remove(*key),
            r == if depth_map_items(*old(self)).contains_key(*key) {
                Some(depth_map_items(*old(self))[*key])
            } else {
                None
            },
    {
        let (u, v) = *key;
        self.inner.remove(&((u.x, u.y, u.z), (v.x, v.y, v.z)))
    }

    /// `hashbrown::HashMap::get`, copied: what `key` maps to, if anything.
    #[verifier::external_body]
    pub(crate) fn get(&self, key: &Segment) -> (r: Option<usize>)
        ensures
            r == if depth_map_items(*self).contains_key(*key) {
                Some(depth_map_items(*self)[*key])
            } else {
                None
            },
    {
        let (u, v) = *key;
        self.inner.get(&((u.x, u.y, u.z), (v.x, v.y, v.z))).copied()
    }

    /// `hashbrown::HashMap::contains_key`: tells whether `key` has an entry.
    #[verifier::external_body]
    pub(crate) fn contains_key(&self, key: &Segment) -> (r: bool)
        ensures
            r == depth_map_items(*self).contains_key(*key),
    {
        let (u, v) = *key;
        self.inner.contains_key(&((u.x, u.y, u.z), (v.x, v.y, v.z)))
    }
}

/// Three segments in a row: the one walked before, the one walked now, and
/// one that may come next.
pub type Turn = (Segment, Segment, Segment);

/// A hash map from turns to pairs of scores, kept in a `hashbrown::HashMap`.
#[verifier::external_body]
pub struct ScoreMap {
    inner: hashbrown::HashMap<
        (
            ((i64, i64, i64), (i64, i64, i64)),
            ((i64, i64, i64), (i64, i64, i64)),
            ((i64, i64, i64), (i64, i64, i64)),
        ),
        (i64, i64),
    >,
}

/// The entries that a [ScoreMap] holds.
pub uninterp spec fn score_map_items(map: ScoreMap) -> Map<Turn, (i64, i64)>;

impl View for ScoreMap {
    type V = Map<Turn, (i64, i64)>;

    open spec fn view(&self) -> Map<Turn, (i64, i64)> {
        score_map_items(*self)
    }
}

impl ScoreMap {
    /// `hashbrown::HashMap::new`: the map it returns holds nothing.
    #[verifier::external_body]
    pub(crate) fn new() -> (r: ScoreMap)
        ensures
            score_map_items(r) == (Map::<Turn, (i64, i64)>::empty()),
    {
        ScoreMap { inner: hashbrown::HashMap::new() }
    }

    /// `hashbrown::HashMap::insert`: afterwards `key` maps to `value` and the
    /// other entries are as before; the result is what `key` mapped to, if
    /// anything.
    #[verifier::external_body]
    pub(crate) fn insert(&mut self, key: Turn, value: (i64, i64)) -> (r: Option<(i64, i64)>)
        ensures
            score_map_items(*final(self)) == score_map_items(*old(self)).insert(key, value),
            r == if score_map_items(*old(self)).contains_key(key) {
                Some(score_map_items(*old(self))[key])
            } else {
                None
            },
    {
        let ((a, b), (c, d), (e, f)) = key;
        self.inner.insert(
            (
                ((a.x, a.y, a.z), (b.x, b.y, b.z)),
                ((c.x, c.y, c.z), (d.x, d.y, d.z)),
                ((e.x, e.y, e.z), (f.x, f.y, f.z)),
            ),
            value,
        )
    }

    /// `hashbrown::HashMap::get`, copied: what `key` maps to, if anything.
    #[verifier::external_body]
    pub(crate) fn get(&self, key: &Turn) -> (r: Option<(i64, i64)>)
        ensures
            r == if score_map_items(*self).contains_key(*key) {
                Some(score_map_items(*self)[*key])
            } else {
                None
            },
    {
        let ((a, b), (c, d), (e, f)) = *key;
        self.inner.get(
            &(
                ((a.x, a.y, a.z), (b.x, b.y, b.z)),
                ((c.x, c.y, c.z), (d.x, d.y, d.z)),
                ((e.x, e.y, e.z), (f.x, f.y, f.z)),
            ),
        ).copied()
    }
}

} // verus!
