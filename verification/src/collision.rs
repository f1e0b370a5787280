//! Collision records, the canonical collision list, and the spatial
//! partition interface.

use vstd::prelude::*;
use core::cmp::Ordering;
use vstd::std_specs::cmp::PartialEqSpec;
use crate::num::{COORD_LIMIT, sqrt_floor, lemma_sqrt_floor_bounds, lemma_square_monotone};
use crate::particle::{Particle, valid_radius};
use crate::vector::{Vector, dist_sq, in_range};

verus! {

/// A particle snapshot stored by a spatial partition: the particle's
/// index together with the radius and position it was inserted with.
#[derive(Clone, Copy, PartialEq, Eq, Structural, Debug)]
pub struct Item {
    pub index: usize,
    pub radius: i64,
    pub position: Vector,
}

/// A snapshot a partition can work with.
pub open spec fn valid_item(t: Item) -> bool {
    in_range(t.position) && valid_radius(t.radius)
}

/// Every snapshot in the sequence is valid.
pub open spec fn valid_items(items: Seq<Item>) -> bool {
    forall|k: int| 0 <= k < items.len() ==> valid_item(#[trigger] items[k])
}

/// The snapshots carry pairwise distinct particle indices.
pub open spec fn distinct_indices(items: Seq<Item>) -> bool {
    forall|k1: int, k2: int|
        0 <= k1 < k2 < items.len() ==> (#[trigger] items[k1]).index != (#[trigger] items[k2]).index
}

/// Two snapshots' circles strictly overlap: the squared distance between
/// the centres is below the squared sum of the radii.
pub open spec fn overlaps(a: Item, b: Item) -> bool {
    dist_sq(a.position, b.position) < (a.radius + b.radius) * (a.radius + b.radius)
}

/// Represents a collision between two particles.
/// The id of `p1` is always less than or equal to `p2`.
#[derive(Clone, Copy, Debug)]
pub struct Collision {
    /// id of particle 1.
    pub p1: usize,
    /// id of particle 2.
    pub p2: usize,
    /// Amount by which the particles are overlapping.
    pub penetration: i64,
    /// Contact direction, pointing from particle `p1` toward particle
    /// `p2` (not normalised).
    pub normal: Vector,
}

/// The collision record a constructor call produces: the indices are put
/// in ascending order and the contact direction follows the swap.
pub open spec fn collision_new_spec(p1: usize, p2: usize, penetration: i64, normal: Vector) -> Collision {
    if p1 <= p2 {
        Collision { p1, p2, penetration, normal }
    } else {
        Collision { p1: p2, p2: p1, penetration, normal: Vector { x: -normal.x as i64, y: -normal.y as i64 } }
    }
}

/// The canonical collision record for two overlapping snapshots.
pub open spec fn collision_of(a: Item, b: Item) -> Collision {
    let lo = if a.index <= b.index { a } else { b };
    let hi = if a.index <= b.index { b } else { a };
    Collision {
        p1: lo.index,
        p2: hi.index,
        penetration: (a.radius + b.radius - sqrt_floor(dist_sq(a.position, b.position))) as i64,
        normal: Vector {
            x: (hi.position.x - lo.position.x) as i64,
            y: (hi.position.y - lo.position.y) as i64,
        },
    }
}

impl Collision {
    /// Make a new collision.
    pub fn new(p1: usize, p2: usize, penetration: i64, normal: Vector) -> (r: Collision)
        requires
            normal.x > i64::MIN,
            normal.y > i64::MIN,
        ensures
            r == collision_new_spec(p1, p2, penetration, normal),
            r.p1 <= r.p2,
    {
        if p2 < p1 {
            Collision { p1: p2, p2: p1, penetration, normal: Vector { x: -normal.x, y: -normal.y } }
        } else {
            Collision { p1, p2, penetration, normal }
        }
    }
}

impl PartialEq for Collision {
    fn eq(&self, other: &Self) -> (r: bool) {
        (self.p1 == other.p1 && self.p2 == other.p2) || (self.p2 == other.p1 && self.p1
            == other.p2)
    }
}

impl vstd::std_specs::cmp::PartialEqSpecImpl for Collision {
    open spec fn obeys_eq_spec() -> bool {
        true
    }

    open spec fn eq_spec(&self, other: &Self) -> bool {
        (self.p1 == other.p1 && self.p2 == other.p2) || (self.p2 == other.p1 && self.p1
            == other.p2)
    }
}

impl PartialOrd for Collision {
    fn partial_cmp(&self, other: &Self) -> (r: Option<Ordering>) {
        if self.p1 < other.p1 {
            Some(Ordering::Less)
        } else if self.p1 > other.p1 {
            Some(Ordering::Greater)
        } else if self.p2 < other.p2 {
            Some(Ordering::Less)
        } else if self.p2 > other.p2 {
            Some(Ordering::Greater)
        } else {
            Some(Ordering::Equal)
        }
    }
}

impl vstd::std_specs::cmp::PartialOrdSpecImpl for Collision {
    open spec fn obeys_partial_cmp_spec() -> bool {
        true
    }

    open spec fn partial_cmp_spec(&self, other: &Self) -> Option<Ordering> {
        if self.p1 < other.p1 {
            Some(Ordering::Less)
        } else if self.p1 > other.p1 {
            Some(Ordering::Greater)
        } else if self.p2 < other.p2 {
            Some(Ordering::Less)
        } else if self.p2 > other.p2 {
            Some(Ordering::Greater)
        } else {
            Some(Ordering::Equal)
        }
    }
}

/// Collision `a` comes strictly before `b` in the canonical order:
/// lexicographic on the index pair.
pub open spec fn pair_lt(a: Collision, b: Collision) -> bool {
    a.p1 < b.p1 || (a.p1 == b.p1 && a.p2 < b.p2)
}

/// The list is strictly ascending in the canonical order, so every index
/// pair appears at most once.
pub open spec fn sorted_strict(s: Seq<Collision>) -> bool {
    forall|i: int, j: int| 0 <= i < j < s.len() ==> pair_lt(#[trigger] s[i], #[trigger] s[j])
}

/// The list holds a collision for the index pair `(a, b)`.
pub open spec fn has_pair(s: Seq<Collision>, a: int, b: int) -> bool {
    exists|k: int| 0 <= k < s.len() && (#[trigger] s[k]).p1 == a && s[k].p2 == b
}

/// The comparison list holds the index pair `(a, b)` in either
/// orientation.
pub open spec fn has_comp(s: Seq<(usize, usize)>, a: int, b: int) -> bool {
    exists|k: int|
        0 <= k < s.len() && ((#[trigger] s[k]).0 == a && s[k].1 == b || s[k].0 == b && s[k].1 == a)
}

/// One list extends another without changing what it holds so far.
pub open spec fn seq_prefix<T>(s1: Seq<T>, s2: Seq<T>) -> bool {
    s1.len() <= s2.len() && forall|m: int| 0 <= m < s1.len() ==> s2[m] == #[trigger] s1[m]
}

/// A pair in a list is still in any extension of it.
pub proof fn lemma_has_pair_prefix(s1: Seq<Collision>, s2: Seq<Collision>, a: int, b: int)
    requires
        seq_prefix(s1, s2),
        has_pair(s1, a, b),
    ensures
        has_pair(s2, a, b),
{
    let k = choose|k: int| 0 <= k < s1.len() && (#[trigger] s1[k]).p1 == a && s1[k].p2 == b;
    assert(s2[k] == s1[k]);
}

/// A comparison in a list is still in any extension of it.
pub proof fn lemma_has_comp_prefix(s1: Seq<(usize, usize)>, s2: Seq<(usize, usize)>, a: int, b: int)
    requires
        seq_prefix(s1, s2),
        has_comp(s1, a, b),
    ensures
        has_comp(s2, a, b),
{
    let k = choose|k: int|
        0 <= k < s1.len() && ((#[trigger] s1[k]).0 == a && s1[k].1 == b || s1[k].0 == b && s1[k].1
            == a);
    assert(s2[k] == s1[k]);
}

/// A pair in either of two lists is in their concatenation.
pub proof fn lemma_has_pair_concat(s1: Seq<Collision>, s2: Seq<Collision>, a: int, b: int)
    requires
        has_pair(s1, a, b) || has_pair(s2, a, b),
    ensures
        has_pair(s1 + s2, a, b),
{
    if has_pair(s1, a, b) {
        let k = choose|k: int| 0 <= k < s1.len() && (#[trigger] s1[k]).p1 == a && s1[k].p2 == b;
        assert((s1 + s2)[k] == s1[k]);
    } else {
        let k = choose|k: int| 0 <= k < s2.len() && (#[trigger] s2[k]).p1 == a && s2[k].p2 == b;
        assert((s1 + s2)[s1.len() + k] == s2[k]);
    }
}

/// `(a, b)` is an ordered pair of indices of two stored snapshots whose
/// circles overlap.
pub open spec fn is_overlap_pair(items: Seq<Item>, a: int, b: int) -> bool {
    exists|k1: int, k2: int|
        #![trigger items[k1], items[k2]]
        {
            &&& 0 <= k1 < items.len()
            &&& 0 <= k2 < items.len()
            &&& items[k1].index == a
            &&& items[k2].index == b
            &&& a < b
            &&& overlaps(items[k1], items[k2])
        }
}

/// `c` is the canonical record of an overlap between two stored snapshots.
pub open spec fn is_collision_from(items: Seq<Item>, c: Collision) -> bool {
    exists|k1: int, k2: int|
        #![trigger items[k1], items[k2]]
        {
            &&& 0 <= k1 < items.len()
            &&& 0 <= k2 < items.len()
            &&& items[k1].index == c.p1
            &&& items[k2].index == c.p2
            &&& c.p1 < c.p2
            &&& overlaps(items[k1], items[k2])
            &&& c == collision_of(items[k1], items[k2])
        }
}

/// Every record in the list is the canonical record of a genuine overlap.
pub open spec fn sound_collisions(s: Seq<Collision>, items: Seq<Item>) -> bool {
    forall|k: int| 0 <= k < s.len() ==> is_collision_from(items, #[trigger] s[k])
}

/// Every overlapping pair of stored snapshots appears in the list.
pub open spec fn complete_collisions(s: Seq<Collision>, items: Seq<Item>) -> bool {
    forall|a: int, b: int| #[trigger] is_overlap_pair(items, a, b) ==> has_pair(s, a, b)
}

/// The list is exactly the canonical collision list of the stored
/// snapshots: strictly sorted, sound, and complete.
pub open spec fn canonical_for(s: Seq<Collision>, items: Seq<Item>) -> bool {
    sorted_strict(s) && sound_collisions(s, items) && complete_collisions(s, items)
}

/// A positive penetration depth is exactly a strict overlap of the two
/// circles, because comparing against the floored square root of the
/// squared distance is comparing the squares.
pub proof fn lemma_penetration_overlap(a: Item, b: Item)
    requires
        valid_item(a),
        valid_item(b),
    ensures
        a.radius + b.radius - sqrt_floor(dist_sq(a.position, b.position)) > 0 <==> overlaps(a, b),
{
    let d2 = dist_sq(a.position, b.position);
    let s = a.radius + b.radius;
    crate::num::lemma_abs_square_bound(a.position.x - b.position.x, 2 * (COORD_LIMIT as int));
    crate::num::lemma_abs_square_bound(a.position.y - b.position.y, 2 * (COORD_LIMIT as int));
    lemma_sqrt_floor_bounds(d2);
    let f = sqrt_floor(d2);
    if s > f {
        lemma_square_monotone(f + 1, s);
    }
    if s * s > d2 {
        if s <= f {
            lemma_square_monotone(s, f);
        }
    }
}

/// The constructor canonicalizes: records made of the same indices in
/// either order carry the same ascending pair and are equal under the
/// collision equality, and distinct indices give a strictly ascending
/// pair.
pub proof fn lemma_collision_new_canonical(a: usize, b: usize, pen: i64, n1: Vector, n2: Vector)
    ensures
        collision_new_spec(a, b, pen, n1).p1 <= collision_new_spec(a, b, pen, n1).p2,
        a != b ==> collision_new_spec(a, b, pen, n1).p1 < collision_new_spec(a, b, pen, n1).p2,
        collision_new_spec(a, b, pen, n1).p1 == collision_new_spec(b, a, pen, n2).p1,
        collision_new_spec(a, b, pen, n1).p2 == collision_new_spec(b, a, pen, n2).p2,
        collision_new_spec(a, b, pen, n1).eq_spec(&collision_new_spec(b, a, pen, n2)),
{
}

/// Overlapping does not depend on the order of the two snapshots.
pub proof fn lemma_overlaps_symmetric(a: Item, b: Item)
    ensures
        overlaps(a, b) == overlaps(b, a),
{
    assert(dist_sq(a.position, b.position) == dist_sq(b.position, a.position)) by (nonlinear_arith);
}

/// The canonical record does not depend on the order of the two
/// snapshots.
pub proof fn lemma_collision_of_symmetric(a: Item, b: Item)
    requires
        a.index != b.index,
    ensures
        collision_of(a, b) == collision_of(b, a),
{
    assert(dist_sq(a.position, b.position) == dist_sq(b.position, a.position)) by (nonlinear_arith);
}

/// The fields of a sound collision record are bounded by the coordinate
/// range: the contact direction is a difference of in-range positions
/// and the penetration is positive and at most the summed radii.
pub proof fn lemma_collision_bounds(items: Seq<Item>, c: Collision)
    requires
        valid_items(items),
        is_collision_from(items, c),
    ensures
        -2 * COORD_LIMIT <= c.normal.x <= 2 * COORD_LIMIT,
        -2 * COORD_LIMIT <= c.normal.y <= 2 * COORD_LIMIT,
        0 < c.penetration <= 2 * COORD_LIMIT,
{
    let (k1, k2): (int, int) = choose|k1: int, k2: int|
        #![trigger items[k1], items[k2]]
        {
            &&& 0 <= k1 < items.len()
            &&& 0 <= k2 < items.len()
            &&& items[k1].index == c.p1
            &&& items[k2].index == c.p2
            &&& c.p1 < c.p2
            &&& overlaps(items[k1], items[k2])
            &&& c == collision_of(items[k1], items[k2])
        };
    lemma_penetration_overlap(items[k1], items[k2]);
    crate::num::lemma_abs_square_bound(
        items[k1].position.x - items[k2].position.x,
        2 * (COORD_LIMIT as int),
    );
    crate::num::lemma_abs_square_bound(
        items[k1].position.y - items[k2].position.y,
        2 * (COORD_LIMIT as int),
    );
    lemma_sqrt_floor_bounds(dist_sq(items[k1].position, items[k2].position));
}

/// Two stored snapshots with equal indices sit at the same place.
pub proof fn lemma_index_unique(items: Seq<Item>, k1: int, k2: int)
    requires
        distinct_indices(items),
        0 <= k1 < items.len(),
        0 <= k2 < items.len(),
        items[k1].index == items[k2].index,
    ensures
        k1 == k2,
{
}

/// With distinct indices, the index pair determines the whole canonical
/// collision record.
pub proof fn lemma_payload_determined(items: Seq<Item>, c1: Collision, c2: Collision)
    requires
        distinct_indices(items),
        is_collision_from(items, c1),
        is_collision_from(items, c2),
        c1.p1 == c2.p1,
        c1.p2 == c2.p2,
    ensures
        c1 == c2,
{
    let (k1, k2): (int, int) = choose|k1: int, k2: int|
        #![trigger items[k1], items[k2]]
        {
            &&& 0 <= k1 < items.len()
            &&& 0 <= k2 < items.len()
            &&& items[k1].index == c1.p1
            &&& items[k2].index == c1.p2
            &&& c1.p1 < c1.p2
            &&& overlaps(items[k1], items[k2])
            &&& c1 == collision_of(items[k1], items[k2])
        };
    let (m1, m2): (int, int) = choose|m1: int, m2: int|
        #![trigger items[m1], items[m2]]
        {
            &&& 0 <= m1 < items.len()
            &&& 0 <= m2 < items.len()
            &&& items[m1].index == c2.p1
            &&& items[m2].index == c2.p2
            &&& c2.p1 < c2.p2
            &&& overlaps(items[m1], items[m2])
            &&& c2 == collision_of(items[m1], items[m2])
        };
    lemma_index_unique(items, k1, m1);
    lemma_index_unique(items, k2, m2);
}

/// Two strictly sorted lists that hold the same index pairs with
/// agreeing payloads are the same list.
pub proof fn lemma_canonical_unique(s1: Seq<Collision>, s2: Seq<Collision>)
    requires
        sorted_strict(s1),
        sorted_strict(s2),
        forall|a: int, b: int| #[trigger] has_pair(s1, a, b) <==> #[trigger] has_pair(s2, a, b),
        forall|i: int, j: int|
            0 <= i < s1.len() && 0 <= j < s2.len() && (#[trigger] s1[i]).p1 == (#[trigger] s2[j]).p1
                && s1[i].p2 == s2[j].p2 ==> s1[i] == s2[j],
    ensures
        s1 == s2,
    decreases s1.len(),
{
    if s1.len() == 0 {
        if s2.len() > 0 {
            assert(has_pair(s2, s2[0].p1 as int, s2[0].p2 as int));
            assert(has_pair(s1, s2[0].p1 as int, s2[0].p2 as int));
            let k = choose|k: int|
                0 <= k < s1.len() && (#[trigger] s1[k]).p1 == s2[0].p1 && s1[k].p2 == s2[0].p2;
            assert(false);
        }
        assert(s1 =~= s2);
    } else {
        assert(has_pair(s1, s1[0].p1 as int, s1[0].p2 as int));
        assert(has_pair(s2, s1[0].p1 as int, s1[0].p2 as int));
        let j = choose|j: int|
            0 <= j < s2.len() && (#[trigger] s2[j]).p1 == s1[0].p1 && s2[j].p2 == s1[0].p2;
        assert(has_pair(s2, s2[0].p1 as int, s2[0].p2 as int));
        assert(has_pair(s1, s2[0].p1 as int, s2[0].p2 as int));
        let i = choose|i: int|
            0 <= i < s1.len() && (#[trigger] s1[i]).p1 == s2[0].p1 && s1[i].p2 == s2[0].p2;
        if i > 0 {
            assert(pair_lt(s1[0], s1[i]));
        }
        if j > 0 {
            assert(pair_lt(s2[0], s2[j]));
        }
        assert(s1[0].p1 == s2[0].p1 && s1[0].p2 == s2[0].p2);
        assert(s1[0] == s2[0]);
        let t1 = s1.skip(1);
        let t2 = s2.skip(1);
        assert forall|a: int, b: int| #[trigger] has_pair(t1, a, b) implies #[trigger] has_pair(
            t2,
            a,
            b,
        ) by {
            let k = choose|k: int| 0 <= k < t1.len() && (#[trigger] t1[k]).p1 == a && t1[k].p2 == b;
            assert(s1[k + 1] == t1[k]);
            assert(has_pair(s1, a, b));
            assert(has_pair(s2, a, b));
            let m = choose|m: int|
                0 <= m < s2.len() && (#[trigger] s2[m]).p1 == a && s2[m].p2 == b;
            assert(pair_lt(s1[0], s1[k + 1]));
            if m == 0 {
                assert(false);
            }
            assert(t2[m - 1] == s2[m]);
            assert(has_pair(t2, a, b));
        }
        assert forall|a: int, b: int| #[trigger] has_pair(t2, a, b) implies #[trigger] has_pair(
            t1,
            a,
            b,
        ) by {
            let k = choose|k: int| 0 <= k < t2.len() && (#[trigger] t2[k]).p1 == a && t2[k].p2 == b;
            assert(s2[k + 1] == t2[k]);
            assert(has_pair(s2, a, b));
            assert(has_pair(s1, a, b));
            let m = choose|m: int|
                0 <= m < s1.len() && (#[trigger] s1[m]).p1 == a && s1[m].p2 == b;
            assert(pair_lt(s2[0], s2[k + 1]));
            if m == 0 {
                assert(false);
            }
            assert(t1[m - 1] == s1[m]);
            assert(has_pair(t1, a, b));
        }
        assert forall|i2: int, j2: int|
            0 <= i2 < t1.len() && 0 <= j2 < t2.len() && (#[trigger] t1[i2]).p1 == (#[trigger] t2[j2]).p1
                && t1[i2].p2 == t2[j2].p2 implies t1[i2] == t2[j2] by {
            assert(t1[i2] == s1[i2 + 1]);
            assert(t2[j2] == s2[j2 + 1]);
        }
        lemma_canonical_unique(t1, t2);
        assert(s1.len() == s2.len());
        assert forall|k: int| 0 <= k < s1.len() implies s1[k] == s2[k] by {
            if k > 0 {
                assert(t1[k - 1] == s1[k]);
                assert(t2[k - 1] == s2[k]);
            }
        }
        assert(s1 =~= s2);
    }
}

/// Canonical collision lists are unique: two lists that are each
/// sorted, sound and complete for the same snapshots are equal.  In
/// particular, the serial and the four-way parallel check of a partition
/// agree wherever both promise the canonical list; checking twice
/// without an intervening insert or clear returns the same list with no
/// growth; and a partition's list equals the naive quadratic check's
/// list over the same snapshots.
pub proof fn lemma_canonical_for_unique(s1: Seq<Collision>, s2: Seq<Collision>, items: Seq<Item>)
    requires
        distinct_indices(items),
        canonical_for(s1, items),
        canonical_for(s2, items),
    ensures
        s1 == s2,
{
    assert forall|a: int, b: int| #[trigger] has_pair(s1, a, b) implies #[trigger] has_pair(
        s2,
        a,
        b,
    ) by {
        let k = choose|k: int| 0 <= k < s1.len() && (#[trigger] s1[k]).p1 == a && s1[k].p2 == b;
        assert(is_collision_from(items, s1[k]));
        assert(is_overlap_pair(items, a, b));
    }
    assert forall|a: int, b: int| #[trigger] has_pair(s2, a, b) implies #[trigger] has_pair(
        s1,
        a,
        b,
    ) by {
        let k = choose|k: int| 0 <= k < s2.len() && (#[trigger] s2[k]).p1 == a && s2[k].p2 == b;
        assert(is_collision_from(items, s2[k]));
        assert(is_overlap_pair(items, a, b));
    }
    assert forall|i: int, j: int|
        0 <= i < s1.len() && 0 <= j < s2.len() && (#[trigger] s1[i]).p1 == (#[trigger] s2[j]).p1
            && s1[i].p2 == s2[j].p2 implies s1[i] == s2[j] by {
        lemma_payload_determined(items, s1[i], s2[j]);
    }
    lemma_canonical_unique(s1, s2);
}

/// `has_pair` survives inserting an element.
proof fn lemma_has_pair_insert(s: Seq<Collision>, c: Collision, j: int, a: int, b: int)
    requires
        0 <= j <= s.len(),
        has_pair(s, a, b),
    ensures
        has_pair(s.insert(j, c), a, b),
{
    let k = choose|k: int| 0 <= k < s.len() && (#[trigger] s[k]).p1 == a && s[k].p2 == b;
    if k < j {
        assert(s.insert(j, c)[k] == s[k]);
    } else {
        assert(s.insert(j, c)[k + 1] == s[k]);
    }
}

/// Test two snapshots for overlap, producing the canonical record.
pub fn check_pair(a: Item, b: Item) -> (r: Option<Collision>)
    requires
        valid_item(a),
        valid_item(b),
        a.index != b.index,
    ensures
        r == if overlaps(a, b) {
            Some(collision_of(a, b))
        } else {
            None::<Collision>
        },
{
    let delta = b.position.sub(a.position);
    let d = a.position.distance(b.position);
    let pen = a.radius + b.radius - d;
    proof {
        lemma_penetration_overlap(a, b);
    }
    if pen > 0 {
        Some(Collision::new(a.index, b.index, pen, delta))
    } else {
        None
    }
}

/// Sort a collision list into the canonical order and drop every
/// duplicate index pair: the result is strictly sorted, every record in
/// it comes from the input, and every input pair is still present.
pub fn canonicalize(v: Vec<Collision>) -> (r: Vec<Collision>)
    ensures
        sorted_strict(r@),
        forall|k: int| 0 <= k < r@.len() ==> v@.contains(#[trigger] r@[k]),
        forall|k: int|
            0 <= k < v@.len() ==> has_pair(r@, (#[trigger] v@[k]).p1 as int, v@[k].p2 as int),
{
    let mut r: Vec<Collision> = Vec::new();
    let mut i: usize = 0;
    while i < v.len()
        invariant
            i <= v.len(),
            sorted_strict(r@),
            forall|k: int| 0 <= k < r@.len() ==> v@.contains(#[trigger] r@[k]),
            forall|k: int|
                0 <= k < i ==> has_pair(r@, (#[trigger] v@[k]).p1 as int, v@[k].p2 as int),
        decreases v.len() - i,
    {
        let c = v[i];
        let mut j: usize = 0;
        while j < r.len() && (r[j].p1 < c.p1 || (r[j].p1 == c.p1 && r[j].p2 < c.p2))
            invariant
                j <= r.len(),
                forall|m: int| 0 <= m < j ==> pair_lt(#[trigger] r@[m], c),
            decreases r.len() - j,
        {
            j += 1;
        }
        if j < r.len() && r[j].p1 == c.p1 && r[j].p2 == c.p2 {
            proof {
                assert(has_pair(r@, c.p1 as int, c.p2 as int));
            }
        } else {
            let ghost old_r = r@;
            r.insert(j, c);
            proof {
                assert forall|m1: int, m2: int| 0 <= m1 < m2 < r@.len() implies pair_lt(
                    #[trigger] r@[m1],
                    #[trigger] r@[m2],
                ) by {
                    if m1 < j && m2 == j {
                    } else if m1 == j && m2 > j {
                        assert(r@[m2] == old_r[m2 - 1]);
                        if j < old_r.len() {
                            assert(!pair_lt(old_r[j as int], c));
                            assert(!(old_r[j as int].p1 == c.p1 && old_r[j as int].p2 == c.p2));
                            assert(pair_lt(c, old_r[j as int]));
                        }
                    } else if m1 < j && m2 > j {
                        assert(r@[m1] == old_r[m1]);
                        assert(r@[m2] == old_r[m2 - 1]);
                    } else if m1 > j && m2 > j {
                        assert(r@[m1] == old_r[m1 - 1]);
                        assert(r@[m2] == old_r[m2 - 1]);
                    } else if m1 < j && m2 < j {
                        assert(r@[m1] == old_r[m1]);
                        assert(r@[m2] == old_r[m2]);
                    }
                }
                assert forall|k: int| 0 <= k < i implies has_pair(
                    r@,
                    (#[trigger] v@[k]).p1 as int,
                    v@[k].p2 as int,
                ) by {
                    lemma_has_pair_insert(old_r, c, j as int, v@[k].p1 as int, v@[k].p2 as int);
                }
                assert(r@[j as int] == c);
                assert(has_pair(r@, c.p1 as int, c.p2 as int));
                assert forall|k: int| 0 <= k < r@.len() implies v@.contains(#[trigger] r@[k]) by {
                    if k < j {
                        assert(r@[k] == old_r[k]);
                    } else if k == j {
                        assert(r@[k] == v@[i as int]);
                    } else {
                        assert(r@[k] == old_r[k - 1]);
                    }
                }
            }
        }
        i += 1;
    }
    r
}

/// The contract shared by the broad-phase structures: they store particle
/// snapshots and enumerate the canonical list of overlapping pairs.
pub trait SpatialPartition: Sized {
    /// The snapshots inserted since the last `clear`, in insertion order.
    spec fn items(&self) -> Seq<Item>;

    /// The structure's internal invariant.
    spec fn wf(&self) -> bool;

    /// The width of the covered domain.
    spec fn domain_width(&self) -> int;

    /// The height of the covered domain.
    spec fn domain_height(&self) -> int;

    /// Whether a snapshot radius can be stored faithfully.
    spec fn accepts_radius(&self, radius: i64) -> bool;

    /// Whether the four-way parallel scan covers every stored pair.
    spec fn parallel_exact(&self) -> bool;

    /// The fixed shape parameters of the subdivision, which survive
    /// every insertion and clearing: the row and column counts for a
    /// uniform grid; the probe radius and node capacity for an adaptive
    /// tree.
    spec fn resolution(&self) -> (int, int);

    /// The pair of stored snapshot indices is one the four-way parallel
    /// scan is guaranteed to examine together.
    spec fn parallel_covered_pair(&self, a: int, b: int) -> bool;

    /// The structure's storage is completely empty and any subdivision
    /// is forgotten.
    spec fn cleared(&self) -> bool;

    /// Add a particle snapshot to the structure.
    fn insert(&mut self, index: usize, position: Vector, radius: i64)
        requires
            old(self).wf(),
            valid_radius(radius),
            old(self).accepts_radius(radius),
            in_range(position),
            0 <= position.x <= old(self).domain_width(),
            0 <= position.y <= old(self).domain_height(),
            forall|k: int|
                0 <= k < old(self).items().len() ==> (#[trigger] old(self).items()[k]).index
                    != index,
        ensures
            final(self).wf(),
            final(self).items() == old(self).items().push(
                Item { index, radius, position },
            ),
            final(self).domain_width() == old(self).domain_width(),
            final(self).domain_height() == old(self).domain_height(),
            forall|r: i64| final(self).accepts_radius(r) == old(self).accepts_radius(r),
            final(self).parallel_exact() == old(self).parallel_exact(),
            final(self).resolution() == old(self).resolution(),
    ;

    /// Clear all stored snapshots from the structure, emptying every
    /// part of its storage.
    fn clear(&mut self)
        requires
            old(self).wf(),
        ensures
            final(self).wf(),
            final(self).items() == Seq::<Item>::empty(),
            final(self).domain_width() == old(self).domain_width(),
            final(self).domain_height() == old(self).domain_height(),
            forall|r: i64| final(self).accepts_radius(r) == old(self).accepts_radius(r),
            final(self).parallel_exact() == old(self).parallel_exact(),
            final(self).resolution() == old(self).resolution(),
            final(self).cleared(),
    ;

    /// Check for collisions: the canonical list of every overlapping
    /// pair of stored snapshots, sorted and deduplicated.
    fn collision_check(&self) -> (r: Vec<Collision>)
        requires
            self.wf(),
        ensures
            canonical_for(r@, self.items()),
    ;

    /// Check for collisions with a four-way concurrent scan.  The result
    /// is sorted, deduplicated and sound, and holds every pair the four
    /// scanned regions are guaranteed to examine together; it is the
    /// full canonical list whenever those regions cover every stored
    /// pair.
    fn collision_check_parallel(&self) -> (r: Vec<Collision>)
        requires
            self.wf(),
        ensures
            sorted_strict(r@),
            sound_collisions(r@, self.items()),
            valid_items(self.items()),
            forall|a: int, b: int|
                #[trigger] self.parallel_covered_pair(a, b) ==> has_pair(r@, a, b),
            self.parallel_exact() ==> canonical_for(r@, self.items()),
    ;

    /// Check for collisions and also report which index pairs were
    /// compared in the process.
    fn collision_check_with_comparisons(&self) -> (r: (Vec<Collision>, Vec<(usize, usize)>))
        requires
            self.wf(),
        ensures
            canonical_for(r.0@, self.items()),
            forall|a: int, b: int|
                #[trigger] is_overlap_pair(self.items(), a, b) ==> has_comp(r.1@, a, b),
    ;
}

/// The items a naive scan works on: one snapshot per particle, with one
/// shared probe radius.
pub open spec fn naive_items(radius: i64, ps: Seq<Particle>) -> Seq<Item> {
    Seq::new(ps.len(), |k: int| Item { index: k as usize, radius, position: ps[k].position })
}

/// Check for collisions in a naive O(n^2) fashion.
pub fn naive_collision_check(radius: i64, particles: &[Particle]) -> (r: Vec<Collision>)
    requires
        valid_radius(radius),
        forall|k: int| 0 <= k < particles@.len() ==> in_range((#[trigger] particles@[k]).position),
    ensures
        canonical_for(r@, naive_items(radius, particles@)),
{
    let ghost items = naive_items(radius, particles@);
    let mut collisions: Vec<Collision> = Vec::new();
    let n = particles.len();
    let mut i: usize = 0;
    while i < n
        invariant
            i <= n,
            n == particles@.len(),
            items == naive_items(radius, particles@),
            valid_radius(radius),
            forall|k: int|
                0 <= k < particles@.len() ==> in_range((#[trigger] particles@[k]).position),
            sorted_strict(collisions@),
            sound_collisions(collisions@, items),
            forall|k: int|
                0 <= k < collisions@.len() ==> (#[trigger] collisions@[k]).p1 < i,
            forall|a: int, b: int|
                #[trigger] is_overlap_pair(items, a, b) && a < i ==> has_pair(collisions@, a, b),
        decreases n - i,
    {
        let pi = slice_index(particles, i);
        let mut j: usize = i + 1;
        while j < n
            invariant
                i < n,
                i < j <= n,
                n == particles@.len(),
                items == naive_items(radius, particles@),
                valid_radius(radius),
                forall|k: int|
                    0 <= k < particles@.len() ==> in_range((#[trigger] particles@[k]).position),
                pi == particles@[i as int],
                sorted_strict(collisions@),
                sound_collisions(collisions@, items),
                forall|k: int|
                    0 <= k < collisions@.len() ==> (#[trigger] collisions@[k]).p1 < i || (
                    collisions@[k].p1 == i && collisions@[k].p2 < j),
                forall|a: int, b: int|
                    #[trigger] is_overlap_pair(items, a, b) && (a < i || (a == i && b < j))
                        ==> has_pair(collisions@, a, b),
            decreases n - j,
        {
            let pj = slice_index(particles, j);
            let a = Item { index: i, radius, position: pi.position };
            let b = Item { index: j, radius, position: pj.position };
            let ghost entry = collisions@;
            proof {
                assert(items[i as int] == a);
                assert(items[j as int] == b);
            }
            if let Some(c) = check_pair(a, b) {
                collisions.push(c);
                proof {
                    assert(collisions@ == entry.push(c));
                    assert(c == collision_of(a, b));
                    assert(c.p1 == i && c.p2 == j);
                    assert(is_collision_from(items, c));
                    assert(collisions@[entry.len() as int] == c);
                }
            }
            proof {
                assert(forall|k: int| 0 <= k < entry.len() ==> collisions@[k] == entry[k]);
                assert forall|a2: int, b2: int|
                    #[trigger] is_overlap_pair(items, a2, b2) && (a2 < i || (a2 == i && b2 < j
                        + 1)) implies has_pair(collisions@, a2, b2) by {
                    if a2 == i && b2 == j {
                        if overlaps(items[i as int], items[j as int]) {
                            assert(has_pair(collisions@, a2, b2));
                        } else {
                            let (k1, k2): (int, int) = choose|k1: int, k2: int|
                                #![trigger items[k1], items[k2]]
                                {
                                    &&& 0 <= k1 < items.len()
                                    &&& 0 <= k2 < items.len()
                                    &&& items[k1].index == a2
                                    &&& items[k2].index == b2
                                    &&& a2 < b2
                                    &&& overlaps(items[k1], items[k2])
                                };
                            assert(k1 == i as int && k2 == j as int);
                            assert(false);
                        }
                    } else {
                        assert(a2 < i || (a2 == i && b2 < j));
                        assert(has_pair(entry, a2, b2));
                        let k = choose|k: int|
                            0 <= k < entry.len() && (#[trigger] entry[k]).p1 == a2 && entry[k].p2
                                == b2;
                        assert(collisions@[k] == entry[k]);
                        assert(has_pair(collisions@, a2, b2));
                    }
                }
            }
            j += 1;
        }
        i += 1;
    }
    proof {
        assert forall|a: int, b: int| #[trigger] is_overlap_pair(items, a, b) implies has_pair(
            collisions@,
            a,
            b,
        ) by {
            let (k1, k2): (int, int) = choose|k1: int, k2: int|
                #![trigger items[k1], items[k2]]
                {
                    &&& 0 <= k1 < items.len()
                    &&& 0 <= k2 < items.len()
                    &&& items[k1].index == a
                    &&& items[k2].index == b
                    &&& a < b
                    &&& overlaps(items[k1], items[k2])
                };
            assert(a == k1 && a < n);
        }
    }
    collisions
}

/// Read one element of a particle slice.
fn slice_index(particles: &[Particle], i: usize) -> (r: Particle)
    requires
        i < particles@.len(),
    ensures
        r == particles@[i as int],
{
    particles[i]
}

} // verus!
