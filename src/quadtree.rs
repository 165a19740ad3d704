//! A region quadtree that indexes points with a payload each.
//!
//! A region stores up to `capacity` entries itself. The first insertion
//! beyond that splits it into four quadrants, and every later insertion is
//! routed into the quadrant that contains the point; entries stored before
//! the split stay where they are.
use vstd::prelude::*;
use crate::geometry::{BoundingBox, Point, lemma_quadrant_routing};
use crate::node::Node;

verus! {

broadcast use vstd::seq_lib::group_seq_properties, vstd::seq_lib::group_to_multiset_ensures,
    vstd::seq_lib::lemma_multiset_commutative;

/// Something with a position in the plane.
pub trait HasPoint {
    fn point(&self) -> Point;
}

impl HasPoint for Node {
    /// A node's position is its anchor.
    fn point(&self) -> (r: Point)
        ensures
            r == self.point,
    {
        self.point
    }
}

/// A region of the index: its own entries, and its quadrants once split.
#[derive(Debug)]
pub struct Quadtree<T> {
    pub boundary: BoundingBox,
    pub capacity: usize,
    pub points: Vec<(Point, T)>,
    pub children: Option<Box<Quadrants<T>>>,
}

/// The four quadrants of a split region, in the order of `BoundingBox::quadrant`.
#[derive(Debug)]
pub struct Quadrants<T> {
    pub upper_left: Quadtree<T>,
    pub lower_left: Quadtree<T>,
    pub upper_right: Quadtree<T>,
    pub lower_right: Quadtree<T>,
}

/// Whether entry `e` lies strictly inside `range`.
pub open spec fn inside<T>(range: BoundingBox) -> spec_fn((Point, T)) -> bool {
    |e: (Point, T)| range.spec_strictly_contains(e.0)
}

impl<T> Quadtree<T> {
    /// Every entry of the region and of its quadrants, the region's own first.
    pub open spec fn entries(self) -> Seq<(Point, T)>
        decreases self,
    {
        match self.children {
            None => self.points@,
            Some(c) => self.points@ + c.upper_left.entries() + c.lower_left.entries()
                + c.upper_right.entries() + c.lower_right.entries(),
        }
    }

    /// Number of levels below this region.
    pub open spec fn depth(self) -> nat
        decreases self,
    {
        match self.children {
            None => 0,
            Some(c) => 1 + vstd::math::max(
                vstd::math::max(c.upper_left.depth() as int, c.lower_left.depth() as int),
                vstd::math::max(c.upper_right.depth() as int, c.lower_right.depth() as int),
            ) as nat,
        }
    }

    /// `new` keeps everything `self` stores where it is: each region's own
    /// entries are a prefix of the same region's entries in `new`, and every
    /// split of `self` is a split of `new`, with the same quadrants kept.
    pub open spec fn keeps(self, new: Quadtree<T>) -> bool
        decreases self,
    {
        &&& self.points@.is_prefix_of(new.points@)
        &&& match self.children {
            None => true,
            Some(c) => {
                &&& new.children is Some
                &&& c.upper_left.keeps(new.children.unwrap().upper_left)
                &&& c.lower_left.keeps(new.children.unwrap().lower_left)
                &&& c.upper_right.keeps(new.children.unwrap().upper_right)
                &&& c.lower_right.keeps(new.children.unwrap().lower_right)
            },
        }
    }

    /// Every region keeps itself.
    pub proof fn lemma_keeps_itself(self)
        ensures
            self.keeps(self),
        decreases self,
    {
        assert(self.points@ == self.points@.subrange(0, self.points@.len() as int));
        match self.children {
            None => {},
            Some(c) => {
                c.upper_left.lemma_keeps_itself();
                c.lower_left.lemma_keeps_itself();
                c.upper_right.lemma_keeps_itself();
                c.lower_right.lemma_keeps_itself();
            },
        }
    }

    /// Strictly decreases along each recursive insertion.
    pub open spec fn insert_measure(self) -> nat {
        2 * self.depth() + if self.children is None && self.points.len() >= self.capacity {
            1nat
        } else {
            0nat
        }
    }

    /// The region invariant: entries lie in their region, a region holds at
    /// most `capacity` of its own and is full once split, and the quadrants
    /// share the capacity and are the quadrants of the boundary.
    pub open spec fn wf(self) -> bool
        decreases self,
    {
        &&& self.boundary.wf()
        &&& self.capacity > 0
        &&& self.points.len() <= self.capacity
        &&& forall|i: int|
            0 <= i < self.points.len() ==> self.boundary.spec_contains(
                #[trigger] self.points@[i].0,
            )
        &&& match self.children {
            None => true,
            Some(c) => {
                &&& self.points.len() == self.capacity
                &&& c.upper_left.boundary == self.boundary.spec_quadrant(0)
                &&& c.lower_left.boundary == self.boundary.spec_quadrant(1)
                &&& c.upper_right.boundary == self.boundary.spec_quadrant(2)
                &&& c.lower_right.boundary == self.boundary.spec_quadrant(3)
                &&& c.upper_left.capacity == self.capacity
                &&& c.lower_left.capacity == self.capacity
                &&& c.upper_right.capacity == self.capacity
                &&& c.lower_right.capacity == self.capacity
                &&& c.upper_left.wf()
                &&& c.lower_left.wf()
                &&& c.upper_right.wf()
                &&& c.lower_right.wf()
            },
        }
    }

    /// Every entry of a well-formed region lies inside its boundary.
    pub proof fn lemma_entries_inside(self)
        requires
            self.wf(),
        ensures
            forall|i: int|
                0 <= i < self.entries().len() ==> self.boundary.spec_contains(
                    #[trigger] self.entries()[i].0,
                ),
        decreases self,
    {
        match self.children {
            None => {},
            Some(c) => {
                c.upper_left.lemma_entries_inside();
                c.lower_left.lemma_entries_inside();
                c.upper_right.lemma_entries_inside();
                c.lower_right.lemma_entries_inside();
                lemma_quadrant_routing(self.boundary, Point { x: 0, y: 0 });
                let s1 = self.points@ + c.upper_left.entries();
                let s2 = s1 + c.lower_left.entries();
                let s3 = s2 + c.upper_right.entries();
                let s4 = s3 + c.lower_right.entries();
                assert forall|i: int| 0 <= i < s4.len() implies self.boundary.spec_contains(
                    #[trigger] s4[i].0,
                ) by {
                    if i >= s3.len() {
                        assert(s4[i] == c.lower_right.entries()[i - s3.len()]);
                        assert(self.boundary.spec_quadrant(3).spec_contains(s4[i].0));
                    } else if i >= s2.len() {
                        assert(s3[i] == c.upper_right.entries()[i - s2.len()]);
                        assert(self.boundary.spec_quadrant(2).spec_contains(s4[i].0));
                    } else if i >= s1.len() {
                        assert(s2[i] == c.lower_left.entries()[i - s1.len()]);
                        assert(self.boundary.spec_quadrant(1).spec_contains(s4[i].0));
                    } else if i >= self.points.len() {
                        assert(s1[i] == c.upper_left.entries()[i - self.points.len()]);
                        assert(self.boundary.spec_quadrant(0).spec_contains(s4[i].0));
                    } else {
                        assert(s1[i] == self.points@[i]);
                    }
                }
            },
        }
    }

    /// An empty region over `boundary`.
    pub fn new(boundary: BoundingBox, capacity: usize) -> (r: Quadtree<T>)
        requires
            boundary.wf(),
            capacity > 0,
        ensures
            r.wf(),
            r.boundary == boundary,
            r.capacity == capacity,
            r.entries() == Seq::<(Point, T)>::empty(),
            r.points.len() == 0,
            r.children is None,
    {
        Quadtree { boundary, capacity, points: Vec::new(), children: None }
    }

    /// Adds `(p, v)` when `p` lies in the boundary (edges included); does
    /// nothing and returns `false` otherwise.
    pub fn insert(&mut self, p: Point, v: T) -> (r: bool)
        requires
            old(self).wf(),
        ensures
            final(self).wf(),
            final(self).boundary == old(self).boundary,
            final(self).capacity == old(self).capacity,
            r == old(self).boundary.spec_contains(p),
            r ==> final(self).entries().to_multiset() == old(self).entries().to_multiset().insert(
                (p, v),
            ),
            !r ==> *final(self) == *old(self),
            old(self).keeps(*final(self)),
            r && old(self).children is None && old(self).points.len() < old(self).capacity
                ==> final(self).children is None && final(self).points@ == old(self).points@.push(
                (p, v),
            ),
            final(self).children is Some ==> old(self).children is Some || (r
                && old(self).points.len() == old(self).capacity),
        decreases old(self).insert_measure(),
    {
        if !self.boundary.contains(p) {
            proof {
                self.lemma_keeps_itself();
            }
            return false;
        }
        if self.points.len() < self.capacity {
            let ghost before = *self;
            self.points.push((p, v));
            proof {
                assert(before.points@ == self.points@.subrange(0, before.points@.len() as int));
                match before.children {
                    None => {},
                    Some(c) => {
                        c.upper_left.lemma_keeps_itself();
                        c.lower_left.lemma_keeps_itself();
                        c.upper_right.lemma_keeps_itself();
                        c.lower_right.lemma_keeps_itself();
                    },
                }
            }
            return true;
        }
        let ghost before = *self;
        if self.children.is_none() {
            let b = self.boundary;
            let c = self.capacity;
            self.children = Some(
                Box::new(
                    Quadrants {
                        upper_left: Quadtree::new(b.quadrant(0), c),
                        lower_left: Quadtree::new(b.quadrant(1), c),
                        upper_right: Quadtree::new(b.quadrant(2), c),
                        lower_right: Quadtree::new(b.quadrant(3), c),
                    },
                ),
            );
        }
        let idx = self.boundary.get_quadrant(p);
        proof {
            lemma_quadrant_routing(self.boundary, p);
            let c = self.children.unwrap();
            let m = old(self).insert_measure();
            if old(self).children is Some {
                assert(c == old(self).children.unwrap());
            }
            assert(c.upper_left.insert_measure() < m);
            assert(c.lower_left.insert_measure() < m);
            assert(c.upper_right.insert_measure() < m);
            assert(c.lower_right.insert_measure() < m);
        }
        proof {
            assert(before.points@ == self.points@.subrange(0, before.points@.len() as int));
            if before.children is Some {
                let c = before.children.unwrap();
                c.upper_left.lemma_keeps_itself();
                c.lower_left.lemma_keeps_itself();
                c.upper_right.lemma_keeps_itself();
                c.lower_right.lemma_keeps_itself();
            }
        }
        match &mut self.children {
            Some(c) => {
                if idx == 0 {
                    c.upper_left.insert(p, v)
                } else if idx == 1 {
                    c.lower_left.insert(p, v)
                } else if idx == 2 {
                    c.upper_right.insert(p, v)
                } else {
                    c.lower_right.insert(p, v)
                }
            },
            None => false,
        }
    }
}

impl<T: Copy> Quadtree<T> {
    /// Appends to `results` every entry lying strictly inside `range`, in the
    /// order of `entries`; regions whose boundary misses `range` are skipped.
    pub fn query_point(&self, range: &BoundingBox, results: &mut Vec<(Point, T)>)
        requires
            self.wf(),
            range.wf(),
        ensures
            final(results)@ == old(results)@ + self.entries().filter(inside(*range)),
        decreases self,
    {
        let ghost start = results@;
        if !self.boundary.intersects(range) {
            proof {
                self.lemma_entries_inside();
                lemma_filter_none(self.entries(), inside(*range));
            }
            return;
        }
        let mut i: usize = 0;
        while i < self.points.len()
            invariant
                i <= self.points.len(),
                results@ == start + self.points@.subrange(0, i as int).filter(inside(*range)),
                range.wf(),
            decreases self.points.len() - i,
        {
            let e = self.points[i];
            if range.strictly_contains(e.0) {
                results.push(e);
            }
            proof {
                let s = self.points@.subrange(0, i + 1);
                assert(s.drop_last() == self.points@.subrange(0, i as int));
                assert(s.last() == e);
                reveal(Seq::filter);
            }
            i += 1;
        }
        proof {
            assert(self.points@.subrange(0, i as int) == self.points@);
        }
        match &self.children {
            Some(c) => {
                c.upper_left.query_point(range, results);
                c.lower_left.query_point(range, results);
                c.upper_right.query_point(range, results);
                c.lower_right.query_point(range, results);
            },
            None => {},
        }
    }
}

/// A filter that no element passes is empty.
proof fn lemma_filter_none<A>(s: Seq<A>, pred: spec_fn(A) -> bool)
    requires
        forall|i: int| 0 <= i < s.len() ==> !pred(#[trigger] s[i]),
    ensures
        s.filter(pred) == Seq::<A>::empty(),
    decreases s.len(),
{
    reveal(Seq::filter);
    if s.len() > 0 {
        lemma_filter_none(s.drop_last(), pred);
        assert(!pred(s[s.len() - 1]));
    }
}

/// A filter that every element passes keeps the sequence whole.
proof fn lemma_filter_all<A>(s: Seq<A>, pred: spec_fn(A) -> bool)
    requires
        forall|i: int| 0 <= i < s.len() ==> pred(#[trigger] s[i]),
    ensures
        s.filter(pred) == s,
    decreases s.len(),
{
    reveal(Seq::filter);
    if s.len() > 0 {
        lemma_filter_all(s.drop_last(), pred);
        assert(s.drop_last().push(s.last()) == s);
    }
}

/// Querying the whole boundary of a region whose entries all lie strictly
/// inside it yields every entry, each once. Together with `insert`, which
/// adds exactly one entry per point inside the boundary, `n` such insertions
/// into an empty region are all found again, whatever the capacity.
pub proof fn lemma_full_query_finds_all<T>(q: Quadtree<T>)
    requires
        q.wf(),
        forall|i: int|
            0 <= i < q.entries().len() ==> q.boundary.spec_strictly_contains(
                #[trigger] q.entries()[i].0,
            ),
    ensures
        q.entries().filter(inside(q.boundary)) == q.entries(),
        q.entries().filter(inside(q.boundary)).to_multiset() == q.entries().to_multiset(),
{
    lemma_filter_all(q.entries(), inside(q.boundary));
}

} // verus!
