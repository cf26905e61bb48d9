//! A region quadtree: points tagged with ids, stored in leaves of at most `CAPACITY`
//! points that split into four quadrants when they overflow.
use vstd::prelude::*;
use vstd::multiset::Multiset;
use crate::geometry::{AABB, Vec2, first_quadrant, lemma_quadrant_inside, lemma_quadrants_cover};

verus! {

broadcast use vstd::seq_lib::group_to_multiset_ensures;

/// The records whose position's first quadrant in `b` is `q`.
pub open spec fn lands_in(b: AABB, q: int) -> spec_fn((Vec2, usize)) -> bool {
    |x: (Vec2, usize)| first_quadrant(b, x.0) == q
}

/// Number of points a leaf holds before it splits.
pub const CAPACITY: usize = 4;

/// The reasons an operation on a quadtree fails.
#[derive(Debug, Clone, Copy, PartialEq, Eq, Structural)]
pub enum QuadTreeError {
    /// The point lies outside the tree's boundary.
    OutOfBoundary,
}

/// What a node holds: its points, or its four children ordered as the quadrants of
/// its boundary.
pub enum QuadTreeData {
    Leaf(Vec<(Vec2, usize)>),
    Node(Box<QuadTree>, Box<QuadTree>, Box<QuadTree>, Box<QuadTree>),
}

/// A region quadtree over points tagged with integer identifiers.
pub struct QuadTree {
    pub root: QuadTreeData,
    pub boundary: AABB,
}

impl QuadTree {
    /// The multiset of records that the tree stores.
    pub closed spec fn records(&self) -> Multiset<(Vec2, usize)>
        decreases self,
    {
        match &self.root {
            QuadTreeData::Leaf(points) => points@.to_multiset(),
            QuadTreeData::Node(a, b, c, d) => a.records().add(b.records()).add(c.records()).add(
                d.records(),
            ),
        }
    }

    /// The node holds its records directly, with no children.
    pub closed spec fn spec_is_leaf(&self) -> bool {
        self.root is Leaf
    }

    /// Child `q` of a subdivided node, ordered as the quadrants of its boundary.
    pub closed spec fn spec_child(&self, q: int) -> QuadTree {
        match &self.root {
            QuadTreeData::Node(a, b, c, d) => if q == 0 {
                **a
            } else if q == 1 {
                **b
            } else if q == 2 {
                **c
            } else {
                **d
            },
            QuadTreeData::Leaf(_) => *self,
        }
    }

    /// The structural invariant: a well-formed boundary; a leaf keeps its points inside it,
    /// and at most `CAPACITY` of them unless the region cannot be split; a subdivided
    /// node has one well-formed child per quadrant and stores at least one record.
    pub closed spec fn wf(&self) -> bool
        decreases self,
    {
        &&& self.boundary.wf()
        &&& match &self.root {
            QuadTreeData::Leaf(points) => {
                &&& forall|i: int|
                    0 <= i < points@.len() ==> self.boundary.spec_contains(#[trigger] points@[i].0)
                &&& self.boundary.splittable() ==> points@.len() <= CAPACITY
            },
            QuadTreeData::Node(a, b, c, d) => {
                &&& self.boundary.splittable()
                &&& a.boundary == self.boundary.spec_quadrant(0)
                &&& b.boundary == self.boundary.spec_quadrant(1)
                &&& c.boundary == self.boundary.spec_quadrant(2)
                &&& d.boundary == self.boundary.spec_quadrant(3)
                &&& a.wf()
                &&& b.wf()
                &&& c.wf()
                &&& d.wf()
                &&& self.records().len() > 0
            },
        }
    }

    /// An empty leaf over `boundary`.
    pub fn new(boundary: AABB) -> (r: QuadTree)
        requires
            boundary.wf(),
        ensures
            r.wf(),
            r.boundary == boundary,
            r.spec_is_leaf(),
            r.records() =~= Multiset::empty(),
    {
        QuadTree { root: QuadTreeData::Leaf(Vec::new()), boundary }
    }

    /// Splits a non-empty leaf whose region can be split into four children, handing each
    /// of its points to the first quadrant that holds it. Any other node is left as it is.
    pub fn subdivide(&mut self)
        requires
            old(self).wf(),
        ensures
            final(self).wf(),
            final(self).boundary == old(self).boundary,
            final(self).records() =~= old(self).records(),
            old(self).spec_is_leaf() && old(self).records().len() > 0
                && old(self).boundary.splittable() ==> !final(self).spec_is_leaf(),
            old(self).spec_is_leaf() && old(self).records().len() > 0
                && old(self).boundary.splittable() ==> forall|q: int|
                0 <= q < 4 ==> {
                    &&& (#[trigger] final(self).spec_child(q)).spec_is_leaf()
                    &&& final(self).spec_child(q).boundary == old(self).boundary.spec_quadrant(q)
                    &&& final(self).spec_child(q).records() =~= old(self).records().filter(
                        lands_in(old(self).boundary, q),
                    )
                },
            !(old(self).spec_is_leaf() && old(self).records().len() > 0
                && old(self).boundary.splittable()) ==> *final(self) == *old(self),
    {
        let bound = self.boundary;
        if !(bound.half_dimension.x >= 2 || bound.half_dimension.y >= 2) {
            return;
        }
        let parts = match &self.root {
            QuadTreeData::Leaf(points) => {
                if points.len() == 0 {
                    return;
                }
                distribute(points, &bound)
            },
            QuadTreeData::Node(..) => {
                return;
            },
        };
        let ghost old_points = match &self.root {
            QuadTreeData::Leaf(points) => points@,
            QuadTreeData::Node(..) => Seq::empty(),
        };
        let (v0, v1, v2, v3) = parts;
        let t0 = QuadTree { root: QuadTreeData::Leaf(v0), boundary: bound.quadrant(0) };
        let t1 = QuadTree { root: QuadTreeData::Leaf(v1), boundary: bound.quadrant(1) };
        let t2 = QuadTree { root: QuadTreeData::Leaf(v2), boundary: bound.quadrant(2) };
        let t3 = QuadTree { root: QuadTreeData::Leaf(v3), boundary: bound.quadrant(3) };
        proof {
            assert(old_points.subrange(0, old_points.len() as int) == old_points);
            lemma_quadrant_inside(bound, 0);
            lemma_quadrant_inside(bound, 1);
            lemma_quadrant_inside(bound, 2);
            lemma_quadrant_inside(bound, 3);
            assert(t0.records() == v0@.to_multiset());
            assert(t1.records() == v1@.to_multiset());
            assert(t2.records() == v2@.to_multiset());
            assert(t3.records() == v3@.to_multiset());
            assert(t0.wf());
            assert(t1.wf());
            assert(t2.wf());
            assert(t3.wf());
        }
        self.root = QuadTreeData::Node(Box::new(t0), Box::new(t1), Box::new(t2), Box::new(t3));
    }

    /// Adds the record `(point, data)`. A point outside the boundary is refused and the
    /// tree is left unchanged. A full leaf whose region can be split is subdivided first.
    pub fn insert(&mut self, point: Vec2, data: usize) -> (r: Result<(), QuadTreeError>)
        requires
            old(self).wf(),
        ensures
            final(self).wf(),
            final(self).boundary == old(self).boundary,
            old(self).boundary.spec_contains(point) ==> r == Ok::<(), QuadTreeError>(())
                && final(self).records() =~= old(self).records().insert((point, data)),
            !old(self).boundary.spec_contains(point) ==> r == Err::<(), QuadTreeError>(
                QuadTreeError::OutOfBoundary,
            ) && *final(self) == *old(self),
            old(self).spec_is_leaf() && old(self).records().len() < CAPACITY
                ==> final(self).spec_is_leaf(),
            old(self).spec_is_leaf() && old(self).records().len() == CAPACITY
                && old(self).boundary.splittable() && old(self).boundary.spec_contains(point)
                ==> !final(self).spec_is_leaf(),
            old(self).boundary.spec_contains(point) && !old(self).spec_is_leaf() ==> {
                let fq = first_quadrant(old(self).boundary, point);
                &&& !final(self).spec_is_leaf()
                &&& final(self).spec_child(fq).records() =~= old(self).spec_child(
                    fq,
                ).records().insert((point, data))
                &&& forall|q: int|
                    0 <= q < 4 && q != fq ==> #[trigger] final(self).spec_child(q)
                        == old(self).spec_child(q)
            },
            old(self).spec_is_leaf() && old(self).records().len() == CAPACITY
                && old(self).boundary.splittable() && old(self).boundary.spec_contains(point)
                ==> forall|q: int|
                0 <= q < 4 ==> {
                    let here = old(self).records().filter(lands_in(old(self).boundary, q));
                    &&& (#[trigger] final(self).spec_child(q)).records() =~= if q
                        == first_quadrant(old(self).boundary, point) {
                        here.insert((point, data))
                    } else {
                        here
                    }
                    &&& final(self).spec_child(q).records().len() <= CAPACITY
                        ==> final(self).spec_child(q).spec_is_leaf()
                },
        decreases old(self).boundary.measure(),
    {
        if !self.boundary.contains(point) {
            return Err(QuadTreeError::OutOfBoundary);
        }
        let bound = self.boundary;
        let full = match &self.root {
            QuadTreeData::Leaf(points) => points.len() >= CAPACITY && (bound.half_dimension.x >= 2
                || bound.half_dimension.y >= 2),
            QuadTreeData::Node(..) => false,
        };
        if full {
            self.subdivide();
        }
        let ghost mid = *self;
        let r = match &mut self.root {
            QuadTreeData::Leaf(points) => {
                points.push((point, data));
                Ok(())
            },
            QuadTreeData::Node(a, b, c, d) => {
                proof {
                    lemma_quadrants_cover(bound, point);
                    lemma_quadrant_inside(bound, 0);
                    lemma_quadrant_inside(bound, 1);
                    lemma_quadrant_inside(bound, 2);
                    lemma_quadrant_inside(bound, 3);
                }
                if a.boundary.contains(point) {
                    a.insert(point, data)
                } else if b.boundary.contains(point) {
                    b.insert(point, data)
                } else if c.boundary.contains(point) {
                    c.insert(point, data)
                } else {
                    d.insert(point, data)
                }
            },
        };
        proof {
            if full {
                let fq = first_quadrant(bound, point);
                lemma_quadrants_cover(bound, point);
                assert(!mid.spec_is_leaf());
                assert(self.spec_child(fq).records() =~= mid.spec_child(fq).records().insert(
                    (point, data),
                ));
                assert forall|q: int| 0 <= q < 4 implies {
                    let here = old(self).records().filter(lands_in(bound, q));
                    &&& (#[trigger] self.spec_child(q)).records() =~= if q == fq {
                        here.insert((point, data))
                    } else {
                        here
                    }
                    &&& self.spec_child(q).records().len() <= CAPACITY
                        ==> self.spec_child(q).spec_is_leaf()
                } by {
                    assert(mid.spec_child(q).spec_is_leaf());
                    assert(mid.spec_child(q).records() =~= old(self).records().filter(
                        lands_in(bound, q),
                    ));
                    if q != fq {
                        assert(self.spec_child(q) == mid.spec_child(q));
                    }
                }
            }
        }
        r
    }
    /// The tree stores no record.
    pub fn is_empty(&self) -> (r: bool)
        requires
            self.wf(),
        ensures
            r == (self.records().len() == 0),
    {
        match &self.root {
            QuadTreeData::Leaf(points) => points.len() == 0,
            QuadTreeData::Node(..) => false,
        }
    }

    /// Removes every record whose position equals `point`. A subdivided node whose
    /// children are all left empty collapses back into an empty leaf.
    pub fn remove(&mut self, point: Vec2)
        requires
            old(self).wf(),
        ensures
            final(self).wf(),
            final(self).boundary == old(self).boundary,
            final(self).records() =~= old(self).records().filter(
                |x: (Vec2, usize)| x.0 != point,
            ),
            final(self).records().len() == 0 ==> final(self).spec_is_leaf(),
            old(self).spec_is_leaf() ==> final(self).spec_is_leaf(),
            !old(self).spec_is_leaf() && final(self).records().len() > 0
                ==> !final(self).spec_is_leaf(),
            !old(self).spec_is_leaf() && !final(self).spec_is_leaf() ==> forall|q: int|
                0 <= q < 4 ==> {
                    &&& (#[trigger] final(self).spec_child(q)).boundary == old(self).spec_child(
                        q,
                    ).boundary
                    &&& final(self).spec_child(q).records() =~= old(self).spec_child(
                        q,
                    ).records().filter(|x: (Vec2, usize)| x.0 != point)
                    &&& old(self).spec_child(q).spec_is_leaf() ==> final(self).spec_child(
                        q,
                    ).spec_is_leaf()
                },
        decreases old(self).boundary.measure(),
    {
        proof {
            self.lemma_records_inside();
        }
        if !self.boundary.contains(point) {
            proof {
                assert(self.records().filter(|x: (Vec2, usize)| x.0 != point) =~= self.records());
                if !self.spec_is_leaf() {
                    lemma_children_hold_records(*self);
                    assert forall|q: int| 0 <= q < 4 implies (#[trigger] self.spec_child(
                        q,
                    )).records().filter(|x: (Vec2, usize)| x.0 != point) =~= self.spec_child(
                        q,
                    ).records() by {
                        lemma_quadrant_inside(self.boundary, q);
                    }
                }
            }
            return;
        }
        let bound = self.boundary;
        let ghost pre = *self;
        match &mut self.root {
            QuadTreeData::Leaf(points) => {
                let kept = keep_other(points, point);
                *points = kept;
            },
            QuadTreeData::Node(a, b, c, d) => {
                proof {
                    lemma_quadrant_inside(bound, 0);
                    lemma_quadrant_inside(bound, 1);
                    lemma_quadrant_inside(bound, 2);
                    lemma_quadrant_inside(bound, 3);
                }
                a.remove(point);
                b.remove(point);
                c.remove(point);
                d.remove(point);
                let empty = a.is_empty() && b.is_empty() && c.is_empty() && d.is_empty();
                proof {
                    let f = |x: (Vec2, usize)| x.0 != point;
                    lemma_filter_add(pre.spec_child(0).records(), pre.spec_child(1).records(), f);
                    lemma_filter_add(
                        pre.spec_child(0).records().add(pre.spec_child(1).records()),
                        pre.spec_child(2).records(),
                        f,
                    );
                    lemma_filter_add(
                        pre.spec_child(0).records().add(pre.spec_child(1).records()).add(
                            pre.spec_child(2).records(),
                        ),
                        pre.spec_child(3).records(),
                        f,
                    );
                }
                if empty {
                    self.root = QuadTreeData::Leaf(Vec::new());
                }
            },
        }
    }

    /// Every record whose position lies in `range`, in no particular order.
    pub fn query_range(&self, range: &AABB) -> (r: Vec<(Vec2, usize)>)
        requires
            self.wf(),
        ensures
            r@.to_multiset() =~= self.records().filter(
                |x: (Vec2, usize)| range.spec_contains(x.0),
            ),
        decreases self.boundary.measure(),
    {
        proof {
            self.lemma_records_inside();
        }
        let mut found: Vec<(Vec2, usize)> = Vec::new();
        if self.boundary.intersects(range) {
            match &self.root {
                QuadTreeData::Leaf(points) => {
                    found = select_in(points, range);
                },
                QuadTreeData::Node(a, b, c, d) => {
                    proof {
                        lemma_quadrant_inside(self.boundary, 0);
                        lemma_quadrant_inside(self.boundary, 1);
                        lemma_quadrant_inside(self.boundary, 2);
                        lemma_quadrant_inside(self.boundary, 3);
                    }
                    let mut ra = a.query_range(range);
                    let mut rb = b.query_range(range);
                    let mut rc = c.query_range(range);
                    let mut rd = d.query_range(range);
                    proof {
                        let f = |x: (Vec2, usize)| range.spec_contains(x.0);
                        lemma_filter_add(a.records(), b.records(), f);
                        lemma_filter_add(a.records().add(b.records()), c.records(), f);
                        lemma_filter_add(
                            a.records().add(b.records()).add(c.records()),
                            d.records(),
                            f,
                        );
                        vstd::seq_lib::lemma_multiset_commutative(ra@, rb@);
                        vstd::seq_lib::lemma_multiset_commutative(ra@ + rb@, rc@);
                        vstd::seq_lib::lemma_multiset_commutative(ra@ + rb@ + rc@, rd@);
                    }
                    found.append(&mut ra);
                    found.append(&mut rb);
                    found.append(&mut rc);
                    found.append(&mut rd);
                },
            }
        } else {
            proof {
                assert forall|x: (Vec2, usize)|
                    #![auto]
                    self.records().count(x) > 0 implies !range.spec_contains(x.0) by {
                    if range.spec_contains(x.0) {
                        crate::geometry::lemma_common_point_intersects(self.boundary, *range, x.0);
                    }
                }
                assert(self.records().filter(|x: (Vec2, usize)| range.spec_contains(x.0))
                    =~= Multiset::empty());
            }
        }
        found
    }

    /// Every record of a well-formed tree lies inside its boundary.
    pub proof fn lemma_records_inside(&self)
        requires
            self.wf(),
        ensures
            forall|x: (Vec2, usize)|
                #![auto]
                self.records().count(x) > 0 ==> self.boundary.spec_contains(x.0),
        decreases self,
    {
        match &self.root {
            QuadTreeData::Leaf(points) => {
                assert forall|x: (Vec2, usize)|
                    #![auto]
                    self.records().count(x) > 0 implies self.boundary.spec_contains(x.0) by {
                    let i = points@.index_of(x);
                    assert(points@.contains(x));
                    assert(points@[i] == x);
                }
            },
            QuadTreeData::Node(a, b, c, d) => {
                a.lemma_records_inside();
                b.lemma_records_inside();
                c.lemma_records_inside();
                d.lemma_records_inside();
                lemma_quadrant_inside(self.boundary, 0);
                lemma_quadrant_inside(self.boundary, 1);
                lemma_quadrant_inside(self.boundary, 2);
                lemma_quadrant_inside(self.boundary, 3);
                assert forall|x: (Vec2, usize)|
                    #![auto]
                    self.records().count(x) > 0 implies self.boundary.spec_contains(x.0) by {
                    if a.records().count(x) > 0 {
                        assert(a.boundary.spec_contains(x.0));
                    } else if b.records().count(x) > 0 {
                        assert(b.boundary.spec_contains(x.0));
                    } else if c.records().count(x) > 0 {
                        assert(c.boundary.spec_contains(x.0));
                    } else {
                        assert(d.records().count(x) > 0);
                        assert(d.boundary.spec_contains(x.0));
                    }
                }
            },
        }
    }

}

/// Hands each point to the first quadrant of `bound` that holds it.
fn distribute(points: &Vec<(Vec2, usize)>, bound: &AABB) -> (r: (
    Vec<(Vec2, usize)>,
    Vec<(Vec2, usize)>,
    Vec<(Vec2, usize)>,
    Vec<(Vec2, usize)>,
))
    requires
        bound.wf(),
        forall|i: int| 0 <= i < points@.len() ==> bound.spec_contains(#[trigger] points@[i].0),
    ensures
        forall|i: int|
            0 <= i < r.0@.len() ==> bound.spec_quadrant(0).spec_contains(#[trigger] r.0@[i].0),
        forall|i: int|
            0 <= i < r.1@.len() ==> bound.spec_quadrant(1).spec_contains(#[trigger] r.1@[i].0),
        forall|i: int|
            0 <= i < r.2@.len() ==> bound.spec_quadrant(2).spec_contains(#[trigger] r.2@[i].0),
        forall|i: int|
            0 <= i < r.3@.len() ==> bound.spec_quadrant(3).spec_contains(#[trigger] r.3@[i].0),
        r.0@.to_multiset().add(r.1@.to_multiset()).add(r.2@.to_multiset()).add(
            r.3@.to_multiset(),
        ) =~= points@.to_multiset(),
        r.0@.to_multiset() =~= points@.to_multiset().filter(lands_in(*bound, 0)),
        r.1@.to_multiset() =~= points@.to_multiset().filter(lands_in(*bound, 1)),
        r.2@.to_multiset() =~= points@.to_multiset().filter(lands_in(*bound, 2)),
        r.3@.to_multiset() =~= points@.to_multiset().filter(lands_in(*bound, 3)),
        r.0@.len() <= points@.len(),
        r.1@.len() <= points@.len(),
        r.2@.len() <= points@.len(),
        r.3@.len() <= points@.len(),
{
    let q0 = bound.quadrant(0);
    let q1 = bound.quadrant(1);
    let q2 = bound.quadrant(2);
    let mut v0: Vec<(Vec2, usize)> = Vec::new();
    let mut v1: Vec<(Vec2, usize)> = Vec::new();
    let mut v2: Vec<(Vec2, usize)> = Vec::new();
    let mut v3: Vec<(Vec2, usize)> = Vec::new();
    let mut i: usize = 0;
    while i < points.len()
        invariant
            bound.wf(),
            q0 == bound.spec_quadrant(0),
            q1 == bound.spec_quadrant(1),
            q2 == bound.spec_quadrant(2),
            0 <= i <= points@.len(),
            forall|i: int| 0 <= i < points@.len() ==> bound.spec_contains(#[trigger] points@[i].0),
            forall|k: int| 0 <= k < v0@.len() ==> q0.spec_contains(#[trigger] v0@[k].0),
            forall|k: int| 0 <= k < v1@.len() ==> q1.spec_contains(#[trigger] v1@[k].0),
            forall|k: int| 0 <= k < v2@.len() ==> q2.spec_contains(#[trigger] v2@[k].0),
            forall|k: int|
                0 <= k < v3@.len() ==> bound.spec_quadrant(3).spec_contains(#[trigger] v3@[k].0),
            v0@.to_multiset().add(v1@.to_multiset()).add(v2@.to_multiset()).add(
                v3@.to_multiset(),
            ) =~= points@.subrange(0, i as int).to_multiset(),
            v0@.len() + v1@.len() + v2@.len() + v3@.len() == i,
            v0@.to_multiset() =~= points@.subrange(0, i as int).to_multiset().filter(lands_in(*bound, 0)),
            v1@.to_multiset() =~= points@.subrange(0, i as int).to_multiset().filter(lands_in(*bound, 1)),
            v2@.to_multiset() =~= points@.subrange(0, i as int).to_multiset().filter(lands_in(*bound, 2)),
            v3@.to_multiset() =~= points@.subrange(0, i as int).to_multiset().filter(lands_in(*bound, 3)),
        decreases points@.len() - i,
    {
        let p = points[i];
        proof {
            lemma_quadrants_cover(*bound, p.0);
            assert(points@.subrange(0, i + 1) == points@.subrange(0, i as int).push(p));
            lemma_filter_push(points@.subrange(0, i as int), p, lands_in(*bound, 0));
            lemma_filter_push(points@.subrange(0, i as int), p, lands_in(*bound, 1));
            lemma_filter_push(points@.subrange(0, i as int), p, lands_in(*bound, 2));
            lemma_filter_push(points@.subrange(0, i as int), p, lands_in(*bound, 3));
        }
        if q0.contains(p.0) {
            v0.push(p);
        } else if q1.contains(p.0) {
            v1.push(p);
        } else if q2.contains(p.0) {
            v2.push(p);
        } else {
            v3.push(p);
        }
        i = i + 1;
    }
    proof {
        assert(points@.subrange(0, points@.len() as int) == points@);
    }
    (v0, v1, v2, v3)
}


/// A stored record lies inside the tree's boundary, and every query range that holds its
/// position reports it.
pub proof fn lemma_stored_record_found(t: QuadTree, x: (Vec2, usize), range: AABB)
    requires
        t.wf(),
        t.records().count(x) > 0,
        range.spec_contains(x.0),
    ensures
        t.boundary.spec_contains(x.0),
        t.records().filter(|y: (Vec2, usize)| range.spec_contains(y.0)).count(x) > 0,
{
    t.lemma_records_inside();
}

/// A subdivided node stores exactly what its four children store, and each child's
/// records lie inside that child's own boundary, which is the matching quadrant.
pub proof fn lemma_children_hold_records(t: QuadTree)
    requires
        t.wf(),
        !t.spec_is_leaf(),
    ensures
        t.records() =~= t.spec_child(0).records().add(t.spec_child(1).records()).add(
            t.spec_child(2).records(),
        ).add(t.spec_child(3).records()),
        t.records().len() == t.spec_child(0).records().len() + t.spec_child(1).records().len()
            + t.spec_child(2).records().len() + t.spec_child(3).records().len(),
        forall|q: int|
            0 <= q < 4 ==> (#[trigger] t.spec_child(q)).wf() && t.spec_child(q).boundary
                == t.boundary.spec_quadrant(q),
        forall|q: int, x: (Vec2, usize)|
            0 <= q < 4 && (#[trigger] t.spec_child(q).records().count(x)) > 0
                ==> t.spec_child(q).boundary.spec_contains(x.0),
{
    match &t.root {
        QuadTreeData::Node(a, b, c, d) => {
            a.lemma_records_inside();
            b.lemma_records_inside();
            c.lemma_records_inside();
            d.lemma_records_inside();
        },
        QuadTreeData::Leaf(_) => {},
    }
}

/// A leaf whose region can be split holds at most `CAPACITY` records.
pub proof fn lemma_leaf_capacity(t: QuadTree)
    requires
        t.wf(),
        t.spec_is_leaf(),
        t.boundary.splittable(),
    ensures
        t.records().len() <= CAPACITY,
{
}

/// A well-formed tree that stores nothing is a single empty leaf.
pub proof fn lemma_empty_is_leaf(t: QuadTree)
    requires
        t.wf(),
        t.records().len() == 0,
    ensures
        t.spec_is_leaf(),
{
}

/// Filtering a sum of multisets filters each part.
pub proof fn lemma_filter_add<V>(m1: Multiset<V>, m2: Multiset<V>, f: spec_fn(V) -> bool)
    ensures
        m1.add(m2).filter(f) =~= m1.filter(f).add(m2.filter(f)),
{
}

/// Filtering after one more element.
pub proof fn lemma_filter_push<V>(s: Seq<V>, x: V, f: spec_fn(V) -> bool)
    ensures
        s.push(x).to_multiset().filter(f) =~= if f(x) {
            s.to_multiset().filter(f).insert(x)
        } else {
            s.to_multiset().filter(f)
        },
{
}

/// The records of `points` whose position differs from `point`.
fn keep_other(points: &Vec<(Vec2, usize)>, point: Vec2) -> (r: Vec<(Vec2, usize)>)
    ensures
        r@.to_multiset() =~= points@.to_multiset().filter(|x: (Vec2, usize)| x.0 != point),
        r@.len() <= points@.len(),
        forall|k: int| 0 <= k < r@.len() ==> points@.contains(#[trigger] r@[k]),
{
    let ghost f = |x: (Vec2, usize)| x.0 != point;
    let mut r: Vec<(Vec2, usize)> = Vec::new();
    let mut i: usize = 0;
    while i < points.len()
        invariant
            0 <= i <= points@.len(),
            f == (|x: (Vec2, usize)| x.0 != point),
            r@.len() <= i,
            r@.to_multiset() =~= points@.subrange(0, i as int).to_multiset().filter(f),
            forall|k: int| 0 <= k < r@.len() ==> points@.contains(#[trigger] r@[k]),
        decreases points@.len() - i,
    {
        let p = points[i];
        proof {
            assert(points@.subrange(0, i + 1) == points@.subrange(0, i as int).push(p));
            lemma_filter_push(points@.subrange(0, i as int), p, f);
            assert(points@[i as int] == p);
        }
        if p.0 != point {
            r.push(p);
            proof {
                assert(f(p));
            }
        } else {
            proof {
                assert(!f(p));
            }
        }
        i = i + 1;
    }
    proof {
        assert(points@.subrange(0, points@.len() as int) == points@);
    }
    r
}

/// The records of `points` whose position lies in `range`.
fn select_in(points: &Vec<(Vec2, usize)>, range: &AABB) -> (r: Vec<(Vec2, usize)>)
    ensures
        r@.to_multiset() =~= points@.to_multiset().filter(
            |x: (Vec2, usize)| range.spec_contains(x.0),
        ),
{
    let ghost f = |x: (Vec2, usize)| range.spec_contains(x.0);
    let mut r: Vec<(Vec2, usize)> = Vec::new();
    let mut i: usize = 0;
    while i < points.len()
        invariant
            0 <= i <= points@.len(),
            f == (|x: (Vec2, usize)| range.spec_contains(x.0)),
            r@.to_multiset() =~= points@.subrange(0, i as int).to_multiset().filter(f),
        decreases points@.len() - i,
    {
        let p = points[i];
        proof {
            assert(points@.subrange(0, i + 1) == points@.subrange(0, i as int).push(p));
            lemma_filter_push(points@.subrange(0, i as int), p, f);
        }
        if range.contains(p.0) {
            r.push(p);
            proof {
                assert(f(p));
            }
        } else {
            proof {
                assert(!f(p));
            }
        }
        i = i + 1;
    }
    proof {
        assert(points@.subrange(0, points@.len() as int) == points@);
    }
    r
}

} // verus!
