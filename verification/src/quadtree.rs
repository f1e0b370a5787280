//! Recursive quadtree implementation.
//!
//! A node either holds objects directly (a leaf) or has exactly four
//! children covering its quadrants.  An object whose probe circle
//! overlaps several children is inserted into every one of them, so that
//! every contact is found inside a single node.

use vstd::prelude::*;
use crate::collision::{
    canonical_for, canonicalize, check_pair, collision_of, has_pair,
    is_collision_from, is_overlap_pair, overlaps, sorted_strict, valid_item,
    Collision, Item, SpatialPartition, has_comp,
};
use crate::num::{COORD_LIMIT, lemma_mul_range};
use crate::particle::valid_radius;
use crate::vector::{dist_sq, in_range, Vector};

verus! {

/// A leaf splits once it holds more objects than this.
pub const NODE_CAPACITY: usize = 16;

/// A stored object, viewed as the snapshot it stands for under the
/// tree's uniform probe radius.
pub open spec fn object_item(radius: i64, e: (usize, Vector)) -> Item {
    Item { index: e.0, radius, position: e.1 }
}

pub struct Quadtree {
    pub empty: bool,
    pub level: usize,
    /// The uniform probe radius used for every stored object.
    pub radius: i64,
    /// The node's rectangle, by its exact corner coordinates.
    pub x0: i64,
    pub y0: i64,
    pub x1: i64,
    pub y1: i64,
    pub objects: Vec<(usize, Vector)>,
    pub children: Option<(Box<Quadtree>, Box<Quadtree>, Box<Quadtree>, Box<Quadtree>)>,
    /// The objects inserted since the last clear, in insertion order.
    pub items_view: Ghost<Seq<(usize, Vector)>>,
}

impl Quadtree {
    /// The probe circle of an object at `p` overlaps this node's
    /// rectangle, tested axis by axis.
    pub open spec fn covers(self, p: Vector) -> bool {
        &&& p.x + self.radius >= self.x0
        &&& p.x - self.radius <= self.x1
        &&& p.y + self.radius >= self.y0
        &&& p.y - self.radius <= self.y1
    }

    /// The node's horizontal split coordinate.
    pub open spec fn xm(self) -> int {
        (self.x0 + self.x1) / 2
    }

    /// The node's vertical split coordinate.
    pub open spec fn ym(self) -> int {
        (self.y0 + self.y1) / 2
    }

    /// The node's area.
    pub open spec fn area(self) -> int {
        (self.x1 - self.x0) * (self.y1 - self.y0)
    }

    /// Structural well-formedness: the rectangle is ordered and in
    /// range, the radius is usable, object positions are in range, and
    /// an internal node holds no objects itself but four well-formed
    /// children on the exact quadrants of its rectangle.
    pub open spec fn node_wf(self) -> bool
        decreases self,
    {
        &&& 0 <= self.x0 <= self.x1 <= COORD_LIMIT
        &&& 0 <= self.y0 <= self.y1 <= COORD_LIMIT
        &&& valid_radius(self.radius)
        &&& forall|m: int|
            0 <= m < self.objects@.len() ==> in_range((#[trigger] self.objects@[m]).1)
        &&& match self.children {
            None => true,
            Some(c) => {
                &&& self.objects@.len() == 0
                &&& self.area() > 64 * self.radius * self.radius
                &&& c.0.x0 == self.x0 && c.0.y0 == self.y0 && c.0.x1 == self.xm() && c.0.y1
                    == self.ym()
                &&& c.1.x0 == self.xm() && c.1.y0 == self.y0 && c.1.x1 == self.x1 && c.1.y1
                    == self.ym()
                &&& c.2.x0 == self.x0 && c.2.y0 == self.ym() && c.2.x1 == self.xm() && c.2.y1
                    == self.y1
                &&& c.3.x0 == self.xm() && c.3.y0 == self.ym() && c.3.x1 == self.x1 && c.3.y1
                    == self.y1
                &&& c.0.radius == self.radius
                &&& c.1.radius == self.radius
                &&& c.2.radius == self.radius
                &&& c.3.radius == self.radius
                &&& c.0.node_wf()
                &&& c.1.node_wf()
                &&& c.2.node_wf()
                &&& c.3.node_wf()
            },
        }
    }

    /// Every object stored anywhere below this node appears in `s`.
    pub open spec fn entries_in(self, s: Seq<(usize, Vector)>) -> bool
        decreases self,
    {
        &&& forall|m: int| 0 <= m < self.objects@.len() ==> s.contains(#[trigger] self.objects@[m])
        &&& match self.children {
            None => true,
            Some(c) => c.0.entries_in(s) && c.1.entries_in(s) && c.2.entries_in(s)
                && c.3.entries_in(s),
        }
    }

    /// The object can be found at every leaf below this node whose
    /// rectangle its probe circle overlaps, along covering paths.
    pub open spec fn holds_object(self, e: (usize, Vector)) -> bool
        decreases self,
    {
        match self.children {
            None => self.objects@.contains(e),
            Some(c) => {
                &&& (c.0.covers(e.1) ==> c.0.holds_object(e))
                &&& (c.1.covers(e.1) ==> c.1.holds_object(e))
                &&& (c.2.covers(e.1) ==> c.2.holds_object(e))
                &&& (c.3.covers(e.1) ==> c.3.holds_object(e))
            },
        }
    }

    /// Two objects live together in some leaf below this node.
    pub open spec fn leaf_pair(self, e1: (usize, Vector), e2: (usize, Vector)) -> bool
        decreases self,
    {
        match self.children {
            None => self.objects@.contains(e1) && self.objects@.contains(e2),
            Some(c) => c.0.leaf_pair(e1, e2) || c.1.leaf_pair(e1, e2) || c.2.leaf_pair(e1, e2)
                || c.3.leaf_pair(e1, e2),
        }
    }
}

/// The record is the canonical record of two distinct overlapping
/// objects sharing a leaf of the node.
pub open spec fn sound_element(c: Collision, n: Quadtree) -> bool {
    exists|e1: (usize, Vector), e2: (usize, Vector)|
        {
            &&& #[trigger] n.leaf_pair(e1, e2)
            &&& e1.0 != e2.0
            &&& overlaps(object_item(n.radius, e1), object_item(n.radius, e2))
            &&& c == collision_of(object_item(n.radius, e1), object_item(n.radius, e2))
        }
}

/// Every record in the list is the canonical record of two distinct
/// overlapping objects sharing a leaf of the node.
pub open spec fn node_sound(s: Seq<Collision>, n: Quadtree) -> bool {
    forall|k: int| 0 <= k < s.len() ==> #[trigger] sound_element(s[k], n)
}

/// Every pair of distinct overlapping objects sharing a leaf of the node
/// is in the list.
pub open spec fn node_complete(s: Seq<Collision>, n: Quadtree) -> bool {
    forall|e1: (usize, Vector), e2: (usize, Vector)|
        #![trigger n.leaf_pair(e1, e2)]
        n.leaf_pair(e1, e2) && e1.0 != e2.0 && overlaps(
            object_item(n.radius, e1),
            object_item(n.radius, e2),
        ) ==> has_pair(
            s,
            if e1.0 <= e2.0 {
                e1.0 as int
            } else {
                e2.0 as int
            },
            if e1.0 <= e2.0 {
                e2.0 as int
            } else {
                e1.0 as int
            },
        )
}

/// Objects below a node appear in any wider sequence too.
proof fn lemma_entries_in_wider(n: Quadtree, s1: Seq<(usize, Vector)>, s2: Seq<(usize, Vector)>)
    requires
        n.entries_in(s1),
        forall|e: (usize, Vector)| s1.contains(e) ==> s2.contains(e),
    ensures
        n.entries_in(s2),
    decreases n,
{
    match n.children {
        None => {},
        Some(c) => {
            lemma_entries_in_wider(*c.0, s1, s2);
            lemma_entries_in_wider(*c.1, s1, s2);
            lemma_entries_in_wider(*c.2, s1, s2);
            lemma_entries_in_wider(*c.3, s1, s2);
        },
    }
}

impl Quadtree {
    /// Make a quadtree over a `width` by `height` domain with the given
    /// uniform probe radius.
    pub fn new(width: i64, height: i64, radius: i64) -> (r: Quadtree)
        requires
            0 < width <= COORD_LIMIT,
            0 < height <= COORD_LIMIT,
            valid_radius(radius),
        ensures
            r.node_wf(),
            r.children is None,
            r.objects@.len() == 0,
            r.items_view@ == Seq::<(usize, Vector)>::empty(),
            r.x0 == 0 && r.y0 == 0 && r.x1 == width && r.y1 == height,
            r.radius == radius,
            r.empty,
            r.level == 0,
    {
        Quadtree {
            empty: true,
            level: 0,
            radius,
            x0: 0,
            y0: 0,
            x1: width,
            y1: height,
            objects: Vec::new(),
            children: None,
            items_view: Ghost(Seq::empty()),
        }
    }

    /// Make a child node for one quadrant.
    fn child(level: usize, radius: i64, x0: i64, y0: i64, x1: i64, y1: i64) -> (r: Quadtree)
        requires
            0 <= x0 <= x1 <= COORD_LIMIT,
            0 <= y0 <= y1 <= COORD_LIMIT,
            valid_radius(radius),
        ensures
            r.node_wf(),
            r.children is None,
            r.objects@.len() == 0,
            r.x0 == x0 && r.y0 == y0 && r.x1 == x1 && r.y1 == y1,
            r.radius == radius,
            r.level == level,
    {
        Quadtree {
            empty: true,
            level,
            radius,
            x0,
            y0,
            x1,
            y1,
            objects: Vec::new(),
            children: None,
            items_view: Ghost(Seq::empty()),
        }
    }

    /// Completely reset the tree: forget the subdivision and all
    /// objects.
    pub fn reset(&mut self)
        requires
            old(self).node_wf(),
        ensures
            final(self).node_wf(),
            final(self).children is None,
            final(self).objects@.len() == 0,
            final(self).items_view@ == Seq::<(usize, Vector)>::empty(),
            final(self).x0 == old(self).x0 && final(self).y0 == old(self).y0,
            final(self).x1 == old(self).x1 && final(self).y1 == old(self).y1,
            final(self).radius == old(self).radius,
    {
        self.children = None;
        self.objects.clear();
        self.empty = true;
        self.items_view = Ghost(Seq::empty());
    }

    /// The insertion test: does the probe circle overlap this node's
    /// rectangle.
    fn within(&self, p: Vector) -> (b: bool)
        requires
            in_range(p),
            self.node_wf(),
        ensures
            b == self.covers(p),
    {
        let b1 = p.x + self.radius >= self.x0;
        let b2 = p.x - self.radius <= self.x1;
        let b3 = p.y + self.radius >= self.y0;
        let b4 = p.y - self.radius <= self.y1;
        b1 && b2 && b3 && b4
    }

    /// Add an object to this node: a leaf stores it (splitting when it
    /// grows too crowded and its area still allows), an internal node
    /// hands it to every child whose rectangle its circle overlaps.
    fn insert_at(&mut self, index: usize, p: Vector)
        requires
            old(self).node_wf(),
            in_range(p),
        ensures
            final(self).node_wf(),
            final(self).x0 == old(self).x0 && final(self).y0 == old(self).y0,
            final(self).x1 == old(self).x1 && final(self).y1 == old(self).y1,
            final(self).radius == old(self).radius,
            final(self).level == old(self).level,
            final(self).items_view == old(self).items_view,
            final(self).holds_object((index, p)),
            forall|e: (usize, Vector)| old(self).holds_object(e) ==> final(self).holds_object(e),
            forall|s: Seq<(usize, Vector)>|
                old(self).entries_in(s) && s.contains((index, p)) ==> final(self).entries_in(s),
            old(self).children is Some ==> final(self).children is Some,
            (old(self).children is None && old(self).objects@.len() + 1 > NODE_CAPACITY && old(
                self,
            ).area() > 64 * old(self).radius * old(self).radius) ==> final(self).children is Some,
            (old(self).children is None && !(old(self).objects@.len() + 1 > NODE_CAPACITY && old(
                self,
            ).area() > 64 * old(self).radius * old(self).radius)) ==> (final(self).children is None
                && final(self).objects@ == old(self).objects@.push((index, p))),
        decreases (old(self).x1 - old(self).x0) * (old(self).y1 - old(self).y0), 2int,
    {
        self.empty = false;
        if self.children.is_some() {
            proof {
                self.lemma_child_area();
            }
            let mut ch: Option<(Box<Quadtree>, Box<Quadtree>, Box<Quadtree>, Box<Quadtree>)> =
                None;
            core::mem::swap(&mut ch, &mut self.children);
            if let Some((mut c1, mut c2, mut c3, mut c4)) = ch {
                let ghost pre1 = *c1;
                let ghost pre2 = *c2;
                let ghost pre3 = *c3;
                let ghost pre4 = *c4;
                proof {
                    assert((c1.x1 - c1.x0) * (c1.y1 - c1.y0) < (old(self).x1 - old(self).x0) * (
                    old(self).y1 - old(self).y0));
                }
                if c1.within(p) {
                    c1.insert_at(index, p);
                }
                if c2.within(p) {
                    c2.insert_at(index, p);
                }
                if c3.within(p) {
                    c3.insert_at(index, p);
                }
                if c4.within(p) {
                    c4.insert_at(index, p);
                }
                self.children = Some((c1, c2, c3, c4));
                proof {
                    assert(self.holds_object((index, p)));
                    assert forall|e: (usize, Vector)| old(self).holds_object(e) implies
                        self.holds_object(e) by {
                        assert(pre1.covers(e.1) ==> pre1.holds_object(e));
                        assert(pre2.covers(e.1) ==> pre2.holds_object(e));
                        assert(pre3.covers(e.1) ==> pre3.holds_object(e));
                        assert(pre4.covers(e.1) ==> pre4.holds_object(e));
                    }
                    assert forall|s: Seq<(usize, Vector)>|
                        old(self).entries_in(s) && s.contains((index, p)) implies self.entries_in(
                        s,
                    ) by {
                        assert(pre1.entries_in(s));
                        assert(pre2.entries_in(s));
                        assert(pre3.entries_in(s));
                        assert(pre4.entries_in(s));
                    }
                }
            }
        } else {
            let ghost oldobjs = self.objects@;
            self.objects.push((index, p));
            proof {
                assert(self.objects@ == oldobjs.push((index, p)));
                assert(self.objects@.contains((index, p))) by {
                    assert(self.objects@[oldobjs.len() as int] == (index, p));
                }
                assert forall|e: (usize, Vector)| oldobjs.contains(e) implies
                    self.objects@.contains(e) by {
                    let m = choose|m: int| 0 <= m < oldobjs.len() && oldobjs[m] == e;
                    assert(self.objects@[m] == e);
                }
            }
            let dense = self.over_density_threshold();
            if self.objects.len() > NODE_CAPACITY && dense {
                self.divide();
            }
        }
    }

    /// Whether the node's area exceeds the density threshold of probe
    /// circles, the condition that allows a split.
    fn over_density_threshold(&self) -> (b: bool)
        requires
            self.node_wf(),
        ensures
            b == (self.area() > 64 * self.radius * self.radius),
    {
        proof {
            lemma_mul_range(
                self.x1 - self.x0,
                self.y1 - self.y0,
                COORD_LIMIT as int,
                COORD_LIMIT as int,
            );
            lemma_mul_range(
                self.radius as int,
                self.radius as int,
                COORD_LIMIT as int,
                COORD_LIMIT as int,
            );
            lemma_mul_range(
                64 * self.radius as int,
                self.radius as int,
                64 * COORD_LIMIT as int,
                COORD_LIMIT as int,
            );
        }
        let w = (self.x1 - self.x0) as i128;
        let h = (self.y1 - self.y0) as i128;
        let r = self.radius as i128;
        w * h > 64 * r * r
    }

    /// Each child's rectangle is strictly smaller in area.
    proof fn lemma_child_area(self)
        requires
            self.node_wf(),
            self.children is Some,
        ensures
            self.children->Some_0.0.area() < self.area(),
            self.children->Some_0.1.area() < self.area(),
            self.children->Some_0.2.area() < self.area(),
            self.children->Some_0.3.area() < self.area(),
    {
        lemma_split_areas(self.x0, self.y0, self.x1, self.y1, self.radius as int);
    }

    /// Create four children on the quadrants and reinsert every stored
    /// object through the normal insertion path.  Afterwards the node is
    /// internal: it has exactly four children one level down on the
    /// exact quadrants of its rectangle (pinned by `node_wf`), holds no
    /// objects itself, and every object it held can still be found at
    /// each leaf its circle overlaps.
    pub fn divide(&mut self)
        requires
            old(self).node_wf(),
            old(self).children is None,
            old(self).area() > 64 * old(self).radius * old(self).radius,
        ensures
            final(self).node_wf(),
            final(self).children is Some,
            final(self).objects@.len() == 0,
            old(self).level < usize::MAX ==> {
                &&& final(self).children->Some_0.0.level == old(self).level + 1
                &&& final(self).children->Some_0.1.level == old(self).level + 1
                &&& final(self).children->Some_0.2.level == old(self).level + 1
                &&& final(self).children->Some_0.3.level == old(self).level + 1
            },
            final(self).x0 == old(self).x0 && final(self).y0 == old(self).y0,
            final(self).x1 == old(self).x1 && final(self).y1 == old(self).y1,
            final(self).radius == old(self).radius,
            final(self).level == old(self).level,
            final(self).items_view == old(self).items_view,
            forall|e: (usize, Vector)| old(self).holds_object(e) ==> final(self).holds_object(e),
            forall|s: Seq<(usize, Vector)>|
                old(self).entries_in(s) ==> final(self).entries_in(s),
        decreases (old(self).x1 - old(self).x0) * (old(self).y1 - old(self).y0), 1int,
    {
        let xm = self.x0 + (self.x1 - self.x0) / 2;
        let ym = self.y0 + (self.y1 - self.y0) / 2;
        proof {
            lemma_mid_split(self.x0 as int, self.x1 as int);
            lemma_mid_split(self.y0 as int, self.y1 as int);
            lemma_split_areas(self.x0, self.y0, self.x1, self.y1, self.radius as int);
        }
        let lvl = self.level.wrapping_add(1);
        let mut c1 = Box::new(Self::child(lvl, self.radius, self.x0, self.y0, xm, ym));
        let mut c2 = Box::new(Self::child(lvl, self.radius, xm, self.y0, self.x1, ym));
        let mut c3 = Box::new(Self::child(lvl, self.radius, self.x0, ym, xm, self.y1));
        let mut c4 = Box::new(Self::child(lvl, self.radius, xm, ym, self.x1, self.y1));
        let mut temp: Vec<(usize, Vector)> = Vec::new();
        core::mem::swap(&mut temp, &mut self.objects);
        let ghost parent = *old(self);
        let ghost temp0 = temp@;
        let mut i: usize = 0;
        while i < temp.len()
            invariant
                i <= temp.len(),
                temp@ == temp0,
                parent == *old(self),
                forall|m: int| 0 <= m < temp0.len() ==> in_range((#[trigger] temp0[m]).1),
                valid_radius(parent.radius),
                0 <= parent.x0 <= parent.x1 <= COORD_LIMIT,
                0 <= parent.y0 <= parent.y1 <= COORD_LIMIT,
                c1.node_wf() && c2.node_wf() && c3.node_wf() && c4.node_wf(),
                c1.radius == parent.radius && c2.radius == parent.radius && c3.radius
                    == parent.radius && c4.radius == parent.radius,
                c1.level == lvl && c2.level == lvl && c3.level == lvl && c4.level == lvl,
                c1.x0 == parent.x0 && c1.y0 == parent.y0 && c1.x1 == parent.xm() && c1.y1
                    == parent.ym(),
                c2.x0 == parent.xm() && c2.y0 == parent.y0 && c2.x1 == parent.x1 && c2.y1
                    == parent.ym(),
                c3.x0 == parent.x0 && c3.y0 == parent.ym() && c3.x1 == parent.xm() && c3.y1
                    == parent.y1,
                c4.x0 == parent.xm() && c4.y0 == parent.ym() && c4.x1 == parent.x1 && c4.y1
                    == parent.y1,
                c1.area() < parent.area() && c2.area() < parent.area() && c3.area()
                    < parent.area() && c4.area() < parent.area(),
                forall|m: int|
                    #![trigger temp0[m]]
                    0 <= m < i ==> {
                        &&& (c1.covers(temp0[m].1) ==> c1.holds_object(temp0[m]))
                        &&& (c2.covers(temp0[m].1) ==> c2.holds_object(temp0[m]))
                        &&& (c3.covers(temp0[m].1) ==> c3.holds_object(temp0[m]))
                        &&& (c4.covers(temp0[m].1) ==> c4.holds_object(temp0[m]))
                    },
                c1.entries_in(temp0) && c2.entries_in(temp0) && c3.entries_in(temp0)
                    && c4.entries_in(temp0),
            decreases temp.len() - i,
        {
            let (idx, p) = temp[i];
            proof {
                assert(temp0.contains(temp0[i as int]));
            }
            if c1.within(p) {
                c1.insert_at(idx, p);
            }
            if c2.within(p) {
                c2.insert_at(idx, p);
            }
            if c3.within(p) {
                c3.insert_at(idx, p);
            }
            if c4.within(p) {
                c4.insert_at(idx, p);
            }
            i += 1;
        }
        self.children = Some((c1, c2, c3, c4));
        proof {
            assert forall|e: (usize, Vector)| old(self).holds_object(e) implies self.holds_object(
                e,
            ) by {
                let m = choose|m: int| 0 <= m < temp0.len() && temp0[m] == e;
            }
            assert forall|s: Seq<(usize, Vector)>| old(self).entries_in(
                s,
            ) implies self.entries_in(s) by {
                assert forall|e: (usize, Vector)| temp0.contains(e) implies s.contains(e) by {
                    let m = choose|m: int| 0 <= m < temp0.len() && temp0[m] == e;
                    assert(old(self).objects@[m] == e);
                }
                lemma_entries_in_wider(*self.children->Some_0.0, temp0, s);
                lemma_entries_in_wider(*self.children->Some_0.1, temp0, s);
                lemma_entries_in_wider(*self.children->Some_0.2, temp0, s);
                lemma_entries_in_wider(*self.children->Some_0.3, temp0, s);
            }
        }
    }
}

impl Quadtree {
    /// Collect the collisions among objects sharing a leaf below this
    /// node, and the index pairs compared along the way.
    fn walk_tree(&self) -> (rc: (Vec<Collision>, Vec<(usize, usize)>))
        requires
            self.node_wf(),
        ensures
            node_sound(rc.0@, *self),
            node_complete(rc.0@, *self),
            forall|k: int|
                0 <= k < rc.0@.len() ==> has_comp(
                    rc.1@,
                    (#[trigger] rc.0@[k]).p1 as int,
                    rc.0@[k].p2 as int,
                ),
        decreases *self,
    {
        let mut out: Vec<Collision> = Vec::new();
        let mut comps: Vec<(usize, usize)> = Vec::new();
        if let Some((c1, c2, c3, c4)) = &self.children {
            let (mut v1, mut m1) = c1.walk_tree();
            let (mut v2, mut m2) = c2.walk_tree();
            let (mut v3, mut m3) = c3.walk_tree();
            let (mut v4, mut m4) = c4.walk_tree();
            let ghost (s1, s2, s3, s4) = (v1@, v2@, v3@, v4@);
            let ghost (t1, t2, t3, t4) = (m1@, m2@, m3@, m4@);
            out.append(&mut v1);
            out.append(&mut v2);
            out.append(&mut v3);
            out.append(&mut v4);
            comps.append(&mut m1);
            comps.append(&mut m2);
            comps.append(&mut m3);
            comps.append(&mut m4);
            proof {
                assert(out@ == s1 + s2 + s3 + s4);
                assert(comps@ == t1 + t2 + t3 + t4);
                assert forall|k: int| 0 <= k < out@.len() implies #[trigger] sound_element(
                    out@[k],
                    *self,
                ) by {
                    let cc: Quadtree = if k < s1.len() {
                        **c1
                    } else if k < s1.len() + s2.len() {
                        **c2
                    } else if k < s1.len() + s2.len() + s3.len() {
                        **c3
                    } else {
                        **c4
                    };
                    let sc: Seq<Collision> = if k < s1.len() {
                        s1
                    } else if k < s1.len() + s2.len() {
                        s2
                    } else if k < s1.len() + s2.len() + s3.len() {
                        s3
                    } else {
                        s4
                    };
                    let kk: int = if k < s1.len() {
                        k
                    } else if k < s1.len() + s2.len() {
                        k - s1.len()
                    } else if k < s1.len() + s2.len() + s3.len() {
                        k - s1.len() - s2.len()
                    } else {
                        k - s1.len() - s2.len() - s3.len()
                    };
                    assert(out@[k] == sc[kk]);
                    assert(node_sound(sc, cc));
                    assert(sound_element(sc[kk], cc));
                    let (e1, e2): ((usize, Vector), (usize, Vector)) = choose|
                        e1: (usize, Vector),
                        e2: (usize, Vector),
                    |
                        {
                            &&& #[trigger] cc.leaf_pair(e1, e2)
                            &&& e1.0 != e2.0
                            &&& overlaps(object_item(cc.radius, e1), object_item(cc.radius, e2))
                            &&& sc[kk] == collision_of(
                                object_item(cc.radius, e1),
                                object_item(cc.radius, e2),
                            )
                        };
                    assert(cc.radius == self.radius);
                    assert(self.leaf_pair(e1, e2));
                    assert(sound_element(out@[k], *self));
                }
                assert forall|e1: (usize, Vector), e2: (usize, Vector)|
                    #![trigger self.leaf_pair(e1, e2)]
                    self.leaf_pair(e1, e2) && e1.0 != e2.0 && overlaps(
                        object_item(self.radius, e1),
                        object_item(self.radius, e2),
                    ) implies has_pair(
                    out@,
                    if e1.0 <= e2.0 {
                        e1.0 as int
                    } else {
                        e2.0 as int
                    },
                    if e1.0 <= e2.0 {
                        e2.0 as int
                    } else {
                        e1.0 as int
                    },
                ) by {
                    let a: int = if e1.0 <= e2.0 {
                        e1.0 as int
                    } else {
                        e2.0 as int
                    };
                    let b: int = if e1.0 <= e2.0 {
                        e2.0 as int
                    } else {
                        e1.0 as int
                    };
                    if c1.leaf_pair(e1, e2) {
                        assert(has_pair(s1, a, b));
                    } else if c2.leaf_pair(e1, e2) {
                        assert(has_pair(s2, a, b));
                    } else if c3.leaf_pair(e1, e2) {
                        assert(has_pair(s3, a, b));
                    } else {
                        assert(c4.leaf_pair(e1, e2));
                        assert(has_pair(s4, a, b));
                    }
                    if has_pair(s1, a, b) || has_pair(s2, a, b) {
                        crate::collision::lemma_has_pair_concat(s1, s2, a, b);
                    }
                    if has_pair(s1 + s2, a, b) || has_pair(s3, a, b) {
                        crate::collision::lemma_has_pair_concat(s1 + s2, s3, a, b);
                    }
                    crate::collision::lemma_has_pair_concat(s1 + s2 + s3, s4, a, b);
                }
                assert forall|k: int| 0 <= k < out@.len() implies has_comp(
                    comps@,
                    (#[trigger] out@[k]).p1 as int,
                    out@[k].p2 as int,
                ) by {
                    if k < s1.len() {
                        assert(out@[k] == s1[k]);
                        let m = choose|m: int|
                            0 <= m < t1.len() && ((#[trigger] t1[m]).0 == out@[k].p1 && t1[m].1
                                == out@[k].p2 || t1[m].0 == out@[k].p2 && t1[m].1 == out@[k].p1);
                        assert(comps@[m] == t1[m]);
                    } else if k < s1.len() + s2.len() {
                        assert(out@[k] == s2[k - s1.len()]);
                        let m = choose|m: int|
                            0 <= m < t2.len() && ((#[trigger] t2[m]).0 == out@[k].p1 && t2[m].1
                                == out@[k].p2 || t2[m].0 == out@[k].p2 && t2[m].1 == out@[k].p1);
                        assert(comps@[t1.len() + m] == t2[m]);
                    } else if k < s1.len() + s2.len() + s3.len() {
                        assert(out@[k] == s3[k - s1.len() - s2.len()]);
                        let m = choose|m: int|
                            0 <= m < t3.len() && ((#[trigger] t3[m]).0 == out@[k].p1 && t3[m].1
                                == out@[k].p2 || t3[m].0 == out@[k].p2 && t3[m].1 == out@[k].p1);
                        assert(comps@[t1.len() + t2.len() + m] == t3[m]);
                    } else {
                        assert(out@[k] == s4[k - s1.len() - s2.len() - s3.len()]);
                        let m = choose|m: int|
                            0 <= m < t4.len() && ((#[trigger] t4[m]).0 == out@[k].p1 && t4[m].1
                                == out@[k].p2 || t4[m].0 == out@[k].p2 && t4[m].1 == out@[k].p1);
                        assert(comps@[t1.len() + t2.len() + t3.len() + m] == t4[m]);
                    }
                }
            }
        } else {
            let n = self.objects.len();
            let mut i: usize = 0;
            while i < n
                invariant
                    self.node_wf(),
                    self.children is None,
                    n == self.objects@.len(),
                    i <= n,
                    node_sound(out@, *self),
                    forall|k: int|
                        0 <= k < out@.len() ==> has_comp(
                            comps@,
                            (#[trigger] out@[k]).p1 as int,
                            out@[k].p2 as int,
                        ),
                    forall|a1: int, a2: int|
                        #![trigger self.objects@[a1], self.objects@[a2]]
                        0 <= a1 < a2 < n && a1 < i && self.objects@[a1].0 != self.objects@[a2].0
                            && overlaps(
                            object_item(self.radius, self.objects@[a1]),
                            object_item(self.radius, self.objects@[a2]),
                        ) ==> has_pair(
                            out@,
                            crate::spatial_hash::min_idx(
                                object_item(self.radius, self.objects@[a1]),
                                object_item(self.radius, self.objects@[a2]),
                            ),
                            crate::spatial_hash::max_idx(
                                object_item(self.radius, self.objects@[a1]),
                                object_item(self.radius, self.objects@[a2]),
                            ),
                        ),
                decreases n - i,
            {
                let mut j: usize = i + 1;
                while j < n
                    invariant
                        self.node_wf(),
                        self.children is None,
                        n == self.objects@.len(),
                        i < n,
                        i < j <= n,
                        node_sound(out@, *self),
                        forall|k: int|
                            0 <= k < out@.len() ==> has_comp(
                                comps@,
                                (#[trigger] out@[k]).p1 as int,
                                out@[k].p2 as int,
                            ),
                        forall|a1: int, a2: int|
                            #![trigger self.objects@[a1], self.objects@[a2]]
                            0 <= a1 < a2 < n && (a1 < i || (a1 == i && a2 < j))
                                && self.objects@[a1].0 != self.objects@[a2].0 && overlaps(
                                object_item(self.radius, self.objects@[a1]),
                                object_item(self.radius, self.objects@[a2]),
                            ) ==> has_pair(
                                out@,
                                crate::spatial_hash::min_idx(
                                    object_item(self.radius, self.objects@[a1]),
                                    object_item(self.radius, self.objects@[a2]),
                                ),
                                crate::spatial_hash::max_idx(
                                    object_item(self.radius, self.objects@[a1]),
                                    object_item(self.radius, self.objects@[a2]),
                                ),
                            ),
                    decreases n - j,
                {
                    let e1 = self.objects[i];
                    let e2 = self.objects[j];
                    let ghost out0 = out@;
                    let ghost comps0 = comps@;
                    if e1.0 != e2.0 {
                        let a = Item { index: e1.0, radius: self.radius, position: e1.1 };
                        let b = Item { index: e2.0, radius: self.radius, position: e2.1 };
                        comps.push((e1.0, e2.0));
                        if let Some(c) = check_pair(a, b) {
                            out.push(c);
                            proof {
                                assert(self.objects@.contains(e1)) by {
                                    assert(self.objects@[i as int] == e1);
                                }
                                assert(self.objects@.contains(e2)) by {
                                    assert(self.objects@[j as int] == e2);
                                }
                                assert(self.leaf_pair(e1, e2));
                                assert(out@[out0.len() as int] == c);
                                assert(sound_element(c, *self));
                                assert forall|k: int| 0 <= k < out@.len() implies
                                    #[trigger] sound_element(out@[k], *self) by {
                                    if k < out0.len() {
                                        assert(out@[k] == out0[k]);
                                    }
                                }
                                assert(comps@[comps0.len() as int] == (e1.0, e2.0));
                            }
                        }
                    }
                    proof {
                        assert(crate::collision::seq_prefix(out0, out@));
                        assert(crate::collision::seq_prefix(comps0, comps@));
                        assert forall|k: int| 0 <= k < out@.len() implies has_comp(
                            comps@,
                            (#[trigger] out@[k]).p1 as int,
                            out@[k].p2 as int,
                        ) by {
                            if k < out0.len() {
                                crate::collision::lemma_has_comp_prefix(
                                    comps0,
                                    comps@,
                                    out0[k].p1 as int,
                                    out0[k].p2 as int,
                                );
                            }
                        }
                        assert forall|a1: int, a2: int|
                            #![trigger self.objects@[a1], self.objects@[a2]]
                            0 <= a1 < a2 < n && (a1 < i || (a1 == i && a2 < j + 1))
                                && self.objects@[a1].0 != self.objects@[a2].0 && overlaps(
                                object_item(self.radius, self.objects@[a1]),
                                object_item(self.radius, self.objects@[a2]),
                            ) implies has_pair(
                            out@,
                            crate::spatial_hash::min_idx(
                                object_item(self.radius, self.objects@[a1]),
                                object_item(self.radius, self.objects@[a2]),
                            ),
                            crate::spatial_hash::max_idx(
                                object_item(self.radius, self.objects@[a1]),
                                object_item(self.radius, self.objects@[a2]),
                            ),
                        ) by {
                            if a1 == i && a2 == j {
                            } else {
                                crate::collision::lemma_has_pair_prefix(
                                    out0,
                                    out@,
                                    crate::spatial_hash::min_idx(
                                        object_item(self.radius, self.objects@[a1]),
                                        object_item(self.radius, self.objects@[a2]),
                                    ),
                                    crate::spatial_hash::max_idx(
                                        object_item(self.radius, self.objects@[a1]),
                                        object_item(self.radius, self.objects@[a2]),
                                    ),
                                );
                            }
                        }
                    }
                    j += 1;
                }
                i += 1;
            }
            proof {
                assert forall|e1: (usize, Vector), e2: (usize, Vector)|
                    #![trigger self.leaf_pair(e1, e2)]
                    self.leaf_pair(e1, e2) && e1.0 != e2.0 && overlaps(
                        object_item(self.radius, e1),
                        object_item(self.radius, e2),
                    ) implies has_pair(
                    out@,
                    if e1.0 <= e2.0 {
                        e1.0 as int
                    } else {
                        e2.0 as int
                    },
                    if e1.0 <= e2.0 {
                        e2.0 as int
                    } else {
                        e1.0 as int
                    },
                ) by {
                    let a1 = choose|m: int| 0 <= m < n && self.objects@[m] == e1;
                    let a2 = choose|m: int| 0 <= m < n && self.objects@[m] == e2;
                    crate::collision::lemma_overlaps_symmetric(
                        object_item(self.radius, e1),
                        object_item(self.radius, e2),
                    );
                    if a1 < a2 {
                        assert(has_pair(
                            out@,
                            crate::spatial_hash::min_idx(
                                object_item(self.radius, self.objects@[a1]),
                                object_item(self.radius, self.objects@[a2]),
                            ),
                            crate::spatial_hash::max_idx(
                                object_item(self.radius, self.objects@[a1]),
                                object_item(self.radius, self.objects@[a2]),
                            ),
                        ));
                    } else {
                        assert(a2 < a1);
                        assert(has_pair(
                            out@,
                            crate::spatial_hash::min_idx(
                                object_item(self.radius, self.objects@[a2]),
                                object_item(self.radius, self.objects@[a1]),
                            ),
                            crate::spatial_hash::max_idx(
                                object_item(self.radius, self.objects@[a2]),
                                object_item(self.radius, self.objects@[a1]),
                            ),
                        ));
                    }
                }
            }
        }
        (out, comps)
    }
}

impl Quadtree {
    /// Two objects held by this node whose probe circles both reach a
    /// common point of its rectangle share one of its leaves.
    proof fn lemma_shared_leaf(self, e1: (usize, Vector), e2: (usize, Vector), zx: int, zy: int)
        requires
            self.node_wf(),
            self.holds_object(e1),
            self.holds_object(e2),
            self.x0 <= zx <= self.x1,
            self.y0 <= zy <= self.y1,
            -self.radius <= zx - e1.1.x <= self.radius,
            -self.radius <= zy - e1.1.y <= self.radius,
            -self.radius <= zx - e2.1.x <= self.radius,
            -self.radius <= zy - e2.1.y <= self.radius,
        ensures
            self.leaf_pair(e1, e2),
        decreases self,
    {
        match self.children {
            None => {},
            Some(c) => {
                vstd::arithmetic::div_mod::lemma_fundamental_div_mod(self.x0 + self.x1, 2);
                vstd::arithmetic::div_mod::lemma_mod_bound(self.x0 + self.x1, 2);
                vstd::arithmetic::div_mod::lemma_fundamental_div_mod(self.y0 + self.y1, 2);
                vstd::arithmetic::div_mod::lemma_mod_bound(self.y0 + self.y1, 2);
                let xm = self.xm();
                let ym = self.ym();
                assert(self.x0 <= xm <= self.x1 && self.y0 <= ym <= self.y1);
                if zx <= xm && zy <= ym {
                    assert(c.0.covers(e1.1) && c.0.covers(e2.1));
                    c.0.lemma_shared_leaf(e1, e2, zx, zy);
                } else if zx >= xm && zy <= ym {
                    assert(c.1.covers(e1.1) && c.1.covers(e2.1));
                    c.1.lemma_shared_leaf(e1, e2, zx, zy);
                } else if zx <= xm {
                    assert(c.2.covers(e1.1) && c.2.covers(e2.1));
                    c.2.lemma_shared_leaf(e1, e2, zx, zy);
                } else {
                    assert(c.3.covers(e1.1) && c.3.covers(e2.1));
                    c.3.lemma_shared_leaf(e1, e2, zx, zy);
                }
            },
        }
    }
}

/// The floored midpoint of two centres whose circles of a common radius
/// strictly overlap lies within radius of both, and between them.
proof fn lemma_overlap_midpoint(radius: int, p1: Vector, p2: Vector)
    requires
        1 <= radius <= COORD_LIMIT,
        in_range(p1),
        in_range(p2),
        dist_sq(p1, p2) < (2 * radius) * (2 * radius),
    ensures
        ({
            let zx = (p1.x + p2.x) / 2int;
            let zy = (p1.y + p2.y) / 2int;
            &&& -radius <= zx - p1.x <= radius
            &&& -radius <= zy - p1.y <= radius
            &&& -radius <= zx - p2.x <= radius
            &&& -radius <= zy - p2.y <= radius
            &&& (p1.x <= zx <= p2.x || p2.x <= zx <= p1.x)
            &&& (p1.y <= zy <= p2.y || p2.y <= zy <= p1.y)
        }),
{
    let t1 = Item { index: 0, radius: radius as i64, position: p1 };
    let t2 = Item { index: 1, radius: radius as i64, position: p2 };
    assert(overlaps(t1, t2));
    crate::spatial_hash::lemma_axis_overlap(t1, t2);
    vstd::arithmetic::div_mod::lemma_fundamental_div_mod(p1.x + p2.x, 2);
    vstd::arithmetic::div_mod::lemma_mod_bound(p1.x + p2.x, 2);
    vstd::arithmetic::div_mod::lemma_fundamental_div_mod(p1.y + p2.y, 2);
    vstd::arithmetic::div_mod::lemma_mod_bound(p1.y + p2.y, 2);
}

/// A pair sharing a leaf is made of stored objects.
proof fn lemma_leaf_pair_entries(
    n: Quadtree,
    s: Seq<(usize, Vector)>,
    e1: (usize, Vector),
    e2: (usize, Vector),
)
    requires
        n.entries_in(s),
        n.leaf_pair(e1, e2),
    ensures
        s.contains(e1),
        s.contains(e2),
    decreases n,
{
    match n.children {
        None => {
            let m1 = choose|m: int| 0 <= m < n.objects@.len() && n.objects@[m] == e1;
            let m2 = choose|m: int| 0 <= m < n.objects@.len() && n.objects@[m] == e2;
        },
        Some(c) => {
            if c.0.leaf_pair(e1, e2) {
                lemma_leaf_pair_entries(*c.0, s, e1, e2);
            } else if c.1.leaf_pair(e1, e2) {
                lemma_leaf_pair_entries(*c.1, s, e1, e2);
            } else if c.2.leaf_pair(e1, e2) {
                lemma_leaf_pair_entries(*c.2, s, e1, e2);
            } else {
                lemma_leaf_pair_entries(*c.3, s, e1, e2);
            }
        },
    }
}

impl Quadtree {
    /// The root invariant behind the partition interface.
    pub open spec fn root_inv(self) -> bool {
        &&& self.node_wf()
        &&& self.x0 == 0
        &&& self.y0 == 0
        &&& forall|k: int|
            0 <= k < self.items_view@.len() ==> {
                &&& in_range((#[trigger] self.items_view@[k]).1)
                &&& 0 <= self.items_view@[k].1.x <= self.x1
                &&& 0 <= self.items_view@[k].1.y <= self.y1
            }
        &&& forall|k1: int, k2: int|
            0 <= k1 < k2 < self.items_view@.len() ==> (#[trigger] self.items_view@[k1]).0 != (
            #[trigger] self.items_view@[k2]).0
        &&& forall|k: int|
            0 <= k < self.items_view@.len() ==> self.holds_object(#[trigger] self.items_view@[k])
        &&& self.entries_in(self.items_view@)
    }

    /// The recorded snapshots under the uniform probe radius.
    pub open spec fn snapshots(self) -> Seq<Item> {
        Seq::new(self.items_view@.len(), |k: int| object_item(self.radius, self.items_view@[k]))
    }

    /// From a sorted, deduplicated list over the raw walk output,
    /// conclude the canonical collision list of the stored snapshots.
    proof fn lemma_canonical_from_walk(self, raw: Seq<Collision>, r: Seq<Collision>)
        requires
            self.root_inv(),
            node_sound(raw, self),
            node_complete(raw, self),
            sorted_strict(r),
            forall|k: int| 0 <= k < r.len() ==> raw.contains(#[trigger] r[k]),
            forall|k: int|
                0 <= k < raw.len() ==> has_pair(r, (#[trigger] raw[k]).p1 as int, raw[k].p2 as int),
        ensures
            canonical_for(r, self.snapshots()),
    {
        let items = self.snapshots();
        assert forall|k: int| 0 <= k < r.len() implies is_collision_from(
            items,
            #[trigger] r[k],
        ) by {
            assert(raw.contains(r[k]));
            let m = choose|m: int| 0 <= m < raw.len() && raw[m] == r[k];
            assert(sound_element(raw[m], self));
            let (e1, e2): ((usize, Vector), (usize, Vector)) = choose|
                e1: (usize, Vector),
                e2: (usize, Vector),
            |
                {
                    &&& #[trigger] self.leaf_pair(e1, e2)
                    &&& e1.0 != e2.0
                    &&& overlaps(object_item(self.radius, e1), object_item(self.radius, e2))
                    &&& raw[m] == collision_of(
                        object_item(self.radius, e1),
                        object_item(self.radius, e2),
                    )
                };
            lemma_leaf_pair_entries(self, self.items_view@, e1, e2);
            let k1 = choose|k: int|
                0 <= k < self.items_view@.len() && self.items_view@[k] == e1;
            let k2 = choose|k: int|
                0 <= k < self.items_view@.len() && self.items_view@[k] == e2;
            assert(items[k1] == object_item(self.radius, e1));
            assert(items[k2] == object_item(self.radius, e2));
            crate::collision::lemma_collision_of_symmetric(
                object_item(self.radius, e1),
                object_item(self.radius, e2),
            );
            crate::collision::lemma_overlaps_symmetric(
                object_item(self.radius, e1),
                object_item(self.radius, e2),
            );
            if e1.0 < e2.0 {
                assert(items[k1].index == r[k].p1 && items[k2].index == r[k].p2);
            } else {
                assert(items[k2].index == r[k].p1 && items[k1].index == r[k].p2);
            }
        }
        assert forall|a: int, b: int| #[trigger] is_overlap_pair(items, a, b) implies has_pair(
            r,
            a,
            b,
        ) by {
            let (k1, k2): (int, int) = choose|k1: int, k2: int|
                #![trigger items[k1], items[k2]]
                {
                    &&& 0 <= k1 < items.len()
                    &&& 0 <= k2 < items.len()
                    &&& items[k1].index == a
                    &&& items[k2].index == b
                    &&& a < b
                    &&& overlaps(items[k1], items[k2])
                };
            let e1 = self.items_view@[k1];
            let e2 = self.items_view@[k2];
            assert(items[k1] == object_item(self.radius, e1));
            assert(items[k2] == object_item(self.radius, e2));
            lemma_overlap_midpoint(self.radius as int, e1.1, e2.1);
            let zx = (e1.1.x + e2.1.x) / 2int;
            let zy = (e1.1.y + e2.1.y) / 2int;
            self.lemma_shared_leaf(e1, e2, zx, zy);
            assert(self.leaf_pair(e1, e2));
            assert(has_pair(raw, a, b));
            let m = choose|m: int|
                0 <= m < raw.len() && (#[trigger] raw[m]).p1 == a && raw[m].p2 == b;
            assert(has_pair(r, raw[m].p1 as int, raw[m].p2 as int));
        }
    }

    /// The serial check body: walk the tree, then sort and deduplicate.
    fn serial_check(&self) -> (r: Vec<Collision>)
        requires
            self.root_inv(),
        ensures
            canonical_for(r@, self.snapshots()),
    {
        let (raw, _comps) = self.walk_tree();
        let r = canonicalize(raw);
        proof {
            self.lemma_canonical_from_walk(raw@, r@);
        }
        r
    }
}

impl SpatialPartition for Quadtree {
    open spec fn items(&self) -> Seq<Item> {
        self.snapshots()
    }

    open spec fn wf(&self) -> bool {
        self.root_inv()
    }

    open spec fn domain_width(&self) -> int {
        self.x1 as int
    }

    open spec fn domain_height(&self) -> int {
        self.y1 as int
    }

    open spec fn accepts_radius(&self, radius: i64) -> bool {
        radius == self.radius
    }

    open spec fn parallel_exact(&self) -> bool {
        true
    }

    open spec fn resolution(&self) -> (int, int) {
        (self.radius as int, NODE_CAPACITY as int)
    }

    open spec fn parallel_covered_pair(&self, a: int, b: int) -> bool {
        is_overlap_pair(self.snapshots(), a, b)
    }

    open spec fn cleared(&self) -> bool {
        self.children is None && self.objects@.len() == 0
    }

    fn insert(&mut self, index: usize, position: Vector, radius: i64) {
        let ghost t = (index, position);
        self.insert_at(index, position);
        self.items_view = Ghost(self.items_view@.push(t));
        proof {
            let s = self.items_view@;
            let s0 = old(self).items_view@;
            assert(s == s0.push(t));
            assert forall|k: int| 0 <= k < s.len() implies self.holds_object(
                #[trigger] s[k],
            ) by {
                if k < s0.len() {
                    assert(s[k] == s0[k]);
                    assert(old(self).holds_object(s0[k]));
                } else {
                    assert(s[k] == t);
                }
            }
            assert(self.entries_in(s)) by {
                assert forall|e: (usize, Vector)| s0.contains(e) implies s.contains(e) by {
                    let m = choose|m: int| 0 <= m < s0.len() && s0[m] == e;
                    assert(s[m] == e);
                }
                lemma_entries_in_wider(*old(self), s0, s);
                assert(s.contains(t)) by {
                    assert(s[s0.len() as int] == t);
                }
            }
            assert forall|k: int| 0 <= k < s.len() implies {
                &&& in_range((#[trigger] s[k]).1)
                &&& 0 <= s[k].1.x <= self.x1
                &&& 0 <= s[k].1.y <= self.y1
            } by {
                if k < s0.len() {
                    assert(s[k] == s0[k]);
                } else {
                    assert(s[k] == t);
                }
            }
            assert forall|k1: int, k2: int| 0 <= k1 < k2 < s.len() implies (
            #[trigger] s[k1]).0 != (#[trigger] s[k2]).0 by {
                assert(s[k1] == s0[k1]);
                if k2 < s0.len() {
                    assert(s[k2] == s0[k2]);
                } else {
                    assert(s[k2] == t);
                    assert(old(self).items()[k1] == object_item(old(self).radius, s0[k1]));
                }
            }
            assert(self.items() =~= old(self).items().push(
                Item { index, radius: old(self).radius, position },
            ));
        }
    }

    fn clear(&mut self) {
        self.reset();
        proof {
            assert(self.items() =~= Seq::<Item>::empty());
        }
    }

    fn collision_check(&self) -> (r: Vec<Collision>) {
        self.serial_check()
    }

    fn collision_check_parallel(&self) -> (r: Vec<Collision>) {
        proof {
            assert forall|k: int| 0 <= k < self.snapshots().len() implies valid_item(
                #[trigger] self.snapshots()[k],
            ) by {
                assert(self.snapshots()[k] == object_item(self.radius, self.items_view@[k]));
            }
        }
        if self.children.is_some() {
            let mut res: Vec<Collision> = Vec::new();
            if let Some(c) = &self.children {
                let (mut v1, mut v2, mut v3, mut v4) = walk_subtrees_concurrently(
                    &c.0,
                    &c.1,
                    &c.2,
                    &c.3,
                );
                let ghost (s1, s2, s3, s4) = (v1@, v2@, v3@, v4@);
                let mut all = v1;
                all.append(&mut v2);
                all.append(&mut v3);
                all.append(&mut v4);
                let r = canonicalize(all);
                proof {
                    let merged = s1 + s2 + s3 + s4;
                    assert(merged == s1 + s2 + s3 + s4);
                    assert forall|k: int| 0 <= k < merged.len() implies #[trigger] sound_element(
                        merged[k],
                        *self,
                    ) by {
                        let cc: Quadtree = if k < s1.len() {
                            *c.0
                        } else if k < s1.len() + s2.len() {
                            *c.1
                        } else if k < s1.len() + s2.len() + s3.len() {
                            *c.2
                        } else {
                            *c.3
                        };
                        let sc: Seq<Collision> = if k < s1.len() {
                            s1
                        } else if k < s1.len() + s2.len() {
                            s2
                        } else if k < s1.len() + s2.len() + s3.len() {
                            s3
                        } else {
                            s4
                        };
                        let kk: int = if k < s1.len() {
                            k
                        } else if k < s1.len() + s2.len() {
                            k - s1.len()
                        } else if k < s1.len() + s2.len() + s3.len() {
                            k - s1.len() - s2.len()
                        } else {
                            k - s1.len() - s2.len() - s3.len()
                        };
                        assert(merged[k] == sc[kk]);
                        assert(sound_element(sc[kk], cc));
                        let (e1, e2): ((usize, Vector), (usize, Vector)) = choose|
                            e1: (usize, Vector),
                            e2: (usize, Vector),
                        |
                            {
                                &&& #[trigger] cc.leaf_pair(e1, e2)
                                &&& e1.0 != e2.0
                                &&& overlaps(object_item(cc.radius, e1), object_item(cc.radius, e2))
                                &&& sc[kk] == collision_of(
                                    object_item(cc.radius, e1),
                                    object_item(cc.radius, e2),
                                )
                            };
                        assert(self.leaf_pair(e1, e2));
                        assert(sound_element(merged[k], *self));
                    }
                    assert forall|e1: (usize, Vector), e2: (usize, Vector)|
                        #![trigger self.leaf_pair(e1, e2)]
                        self.leaf_pair(e1, e2) && e1.0 != e2.0 && overlaps(
                            object_item(self.radius, e1),
                            object_item(self.radius, e2),
                        ) implies has_pair(
                        merged,
                        if e1.0 <= e2.0 {
                            e1.0 as int
                        } else {
                            e2.0 as int
                        },
                        if e1.0 <= e2.0 {
                            e2.0 as int
                        } else {
                            e1.0 as int
                        },
                    ) by {
                        let a: int = if e1.0 <= e2.0 {
                            e1.0 as int
                        } else {
                            e2.0 as int
                        };
                        let b: int = if e1.0 <= e2.0 {
                            e2.0 as int
                        } else {
                            e1.0 as int
                        };
                        if c.0.leaf_pair(e1, e2) {
                            assert(has_pair(s1, a, b));
                        } else if c.1.leaf_pair(e1, e2) {
                            assert(has_pair(s2, a, b));
                        } else if c.2.leaf_pair(e1, e2) {
                            assert(has_pair(s3, a, b));
                        } else {
                            assert(c.3.leaf_pair(e1, e2));
                            assert(has_pair(s4, a, b));
                        }
                        if has_pair(s1, a, b) || has_pair(s2, a, b) {
                            crate::collision::lemma_has_pair_concat(s1, s2, a, b);
                        }
                        if has_pair(s1 + s2, a, b) || has_pair(s3, a, b) {
                            crate::collision::lemma_has_pair_concat(s1 + s2, s3, a, b);
                        }
                        crate::collision::lemma_has_pair_concat(s1 + s2 + s3, s4, a, b);
                    }
                    self.lemma_canonical_from_walk(merged, r@);
                }
                res = r;
            }
            res
        } else {
            self.serial_check()
        }
    }

    fn collision_check_with_comparisons(&self) -> (r: (Vec<Collision>, Vec<(usize, usize)>)) {
        let (raw, comps) = self.walk_tree();
        let canon = canonicalize(raw);
        proof {
            self.lemma_canonical_from_walk(raw@, canon@);
            assert forall|a: int, b: int| #[trigger] is_overlap_pair(self.items(), a, b)
                implies has_comp(comps@, a, b) by {
                assert(has_pair(canon@, a, b));
                let k = choose|k: int|
                    0 <= k < canon@.len() && (#[trigger] canon@[k]).p1 == a && canon@[k].p2 == b;
                assert(raw@.contains(canon@[k]));
                let m = choose|m: int| 0 <= m < raw@.len() && raw@[m] == canon@[k];
                assert(has_comp(comps@, raw@[m].p1 as int, raw@[m].p2 as int));
            }
        }
        (canon, comps)
    }
}

/// Relies on scoped_pool: `Pool::new(4)` starts four workers,
/// `Scope::execute` schedules a job, and `Pool::scoped` returns only
/// after every scheduled job has run, so the four subtree walks are
/// complete when this returns; each walk is the library's own verified
/// `walk_tree`, whose contract the result lists are promised to meet.
/// `Pool::shutdown` stops the workers.
#[verifier::external_body]
fn walk_subtrees_concurrently(c1: &Quadtree, c2: &Quadtree, c3: &Quadtree, c4: &Quadtree) -> (r: (
    Vec<Collision>,
    Vec<Collision>,
    Vec<Collision>,
    Vec<Collision>,
))
    requires
        c1.node_wf(),
        c2.node_wf(),
        c3.node_wf(),
        c4.node_wf(),
    ensures
        node_sound(r.0@, *c1) && node_complete(r.0@, *c1),
        node_sound(r.1@, *c2) && node_complete(r.1@, *c2),
        node_sound(r.2@, *c3) && node_complete(r.2@, *c3),
        node_sound(r.3@, *c4) && node_complete(r.3@, *c4),
{
    let (mut a, mut b, mut c, mut d) = (Vec::new(), Vec::new(), Vec::new(), Vec::new());
    let pool = scoped_pool::Pool::new(4);
    pool.scoped(|scope| {
        scope.execute(|| { a = c1.walk_tree().0 });
        scope.execute(|| { b = c2.walk_tree().0 });
        scope.execute(|| { c = c3.walk_tree().0 });
        scope.execute(|| { d = c4.walk_tree().0 });
    });
    pool.shutdown();
    (a, b, c, d)
}

/// The midpoint of an ordered pair splits its interval into two halves,
/// each at most one more than half the width.
proof fn lemma_mid_split(a: int, b: int)
    requires
        a <= b,
    ensures
        a <= a + (b - a) / 2 <= b,
        2 * ((b - a) / 2) <= b - a,
        2 * ((b - a) / 2) >= b - a - 1,
{
    vstd::arithmetic::div_mod::lemma_fundamental_div_mod(b - a, 2);
    vstd::arithmetic::div_mod::lemma_mod_bound(b - a, 2);
}

/// Splitting a rectangle that is denser than the threshold yields four
/// quadrants of strictly smaller area.
proof fn lemma_split_areas(x0: i64, y0: i64, x1: i64, y1: i64, radius: int)
    requires
        x0 <= x1,
        y0 <= y1,
        radius >= 1,
        (x1 - x0) * (y1 - y0) > 64 * radius * radius,
    ensures
        ({
            let xm = (x0 + x1) / 2int;
            let ym = (y0 + y1) / 2int;
            let w = x1 - x0;
            let h = y1 - y0;
            &&& x0 <= xm <= x1
            &&& y0 <= ym <= y1
            &&& (xm - x0) * (ym - y0) < w * h
            &&& (x1 - xm) * (ym - y0) < w * h
            &&& (xm - x0) * (y1 - ym) < w * h
            &&& (x1 - xm) * (y1 - ym) < w * h
        }),
{
    let xm = (x0 + x1) / 2int;
    let ym = (y0 + y1) / 2int;
    let w = x1 - x0;
    let h = y1 - y0;
    vstd::arithmetic::div_mod::lemma_fundamental_div_mod(x0 + x1, 2);
    vstd::arithmetic::div_mod::lemma_mod_bound(x0 + x1, 2);
    vstd::arithmetic::div_mod::lemma_fundamental_div_mod(y0 + y1, 2);
    vstd::arithmetic::div_mod::lemma_mod_bound(y0 + y1, 2);
    assert(64 * radius * radius >= 64) by (nonlinear_arith)
        requires
            radius >= 1,
    ;
    assert(w >= 1 && h >= 1) by {
        if w == 0 || h == 0 {
            assert(w * h == 0) by (nonlinear_arith)
                requires
                    w == 0 || h == 0,
            ;
        }
    }
    assert(!(w == 1 && h == 1)) by {
        if w == 1 && h == 1 {
            assert(w * h == 1) by (nonlinear_arith)
                requires
                    w == 1 && h == 1,
            ;
        }
    }
    assert((xm - x0) * (ym - y0) < w * h && (x1 - xm) * (ym - y0) < w * h && (xm - x0) * (y1 - ym)
        < w * h && (x1 - xm) * (y1 - ym) < w * h) by (nonlinear_arith)
        requires
            w == x1 - x0,
            h == y1 - y0,
            w >= 1,
            h >= 1,
            !(w == 1 && h == 1),
            2 * xm <= x0 + x1 < 2 * xm + 2,
            2 * ym <= y0 + y1 < 2 * ym + 2,
    ;
}

} // verus!
