//! A scene: an ordered collection of spheres, hit as a whole by keeping the
//! nearest hit among its members.
use crate::hitable::{HitRecord, Hitable};
use crate::ray::{Ray, FAR};
use crate::fixed::ONE;
use crate::sphere::{
    lemma_hit_normal_is_unit, lemma_hit_parameter, lemma_root_within_lower_bound, root_within, Sphere,
};
use crate::vec3::{bounded, dot3};
use vstd::prelude::*;

verus! {

/// The hit that testing `spheres` in order finds, each against the nearest
/// hit so far (or `t_max` before the first): a later member replaces the
/// record only when it is struck strictly nearer.
pub open spec fn nearest_hit(spheres: Seq<Sphere>, ray: Ray, t_min: int, t_max: int) -> Option<HitRecord>
    decreases spheres.len(),
{
    if spheres.len() == 0 {
        None
    } else {
        let before = nearest_hit(spheres.drop_last(), ray, t_min, t_max);
        let bound = match before {
            Some(h) => h.t as int,
            None => t_max,
        };
        match spheres.last().hit_spec(ray, t_min, bound) {
            Some(h) => Some(h),
            None => before,
        }
    }
}

/// A collection of spheres that a ray can strike.
pub struct HitableList {
    pub hitables: Vec<Sphere>,
}

impl HitableList {
    /// Creates an empty collection.
    pub fn new() -> (r: HitableList)
        ensures
            r.hitables@ == Seq::<Sphere>::empty(),
    {
        HitableList { hitables: Vec::new() }
    }

    /// Appends a sphere to the collection.
    pub fn add(&mut self, hitable: Sphere)
        ensures
            final(self).hitables@ == old(self).hitables@.push(hitable),
    {
        self.hitables.push(hitable);
    }
}

impl Hitable for HitableList {
    open spec fn well_formed(&self) -> bool {
        forall|i: int| 0 <= i < self.hitables@.len() ==> (#[trigger] self.hitables@[i]).well_formed()
    }

    open spec fn hit_spec(&self, ray: Ray, t_min: int, t_max: int) -> Option<HitRecord> {
        nearest_hit(self.hitables@, ray, t_min, t_max)
    }

    fn hit(&self, ray: &Ray, t_min: i64, t_max: i64, record: &mut HitRecord) -> (hit: bool) {
        let mut temp_hit_record = HitRecord::new();
        let mut hit_anything = false;
        let mut closest_so_far = t_max;
        let n = self.hitables.len();
        let mut i: usize = 0;
        while i < n
            invariant
                n == self.hitables@.len(),
                i <= n,
                self.well_formed(),
                ray.in_range(),
                -FAR <= t_min,
                t_max <= FAR,
                closest_so_far <= t_max,
                hit_anything == nearest_hit(self.hitables@.take(i as int), *ray, t_min as int, t_max as int).is_some(),
                hit_anything ==> *record == nearest_hit(self.hitables@.take(i as int), *ray, t_min as int, t_max as int).unwrap(),
                hit_anything ==> closest_so_far == record.t,
                !hit_anything ==> closest_so_far == t_max,
                !hit_anything ==> *record == *old(record),
            decreases n - i,
        {
            let ghost prefix = self.hitables@.take(i as int);
            let ghost next = self.hitables@.take(i + 1);
            assert(next.drop_last() == prefix);
            assert(next.last() == self.hitables@[i as int]);
            if self.hitables[i].hit(ray, t_min, closest_so_far, &mut temp_hit_record) {
                hit_anything = true;
                closest_so_far = temp_hit_record.t;
                *record = temp_hit_record;
            }
            i = i + 1;
        }
        assert(self.hitables@.take(n as int) == self.hitables@);
        hit_anything
    }
}

/// Every member lies in the range that hit tests accept.
pub open spec fn all_well_formed(spheres: Seq<Sphere>) -> bool {
    forall|i: int| 0 <= i < spheres.len() ==> (#[trigger] spheres[i]).well_formed()
}

/// Testing the members in order finds the nearest hit among them: there is one
/// exactly when some member is struck within `(t_min, t_max)`; it is the hit of
/// one of the members; and no member is struck nearer.
pub proof fn lemma_nearest_hit_is_nearest(spheres: Seq<Sphere>, ray: Ray, t_min: int, t_max: int)
    requires
        -FAR <= t_min,
        t_max <= FAR,
    ensures
        nearest_hit(spheres, ray, t_min, t_max) is Some <==> exists|i: int|
            0 <= i < spheres.len() && (#[trigger] spheres[i].hit_spec(ray, t_min, t_max)) is Some,
        nearest_hit(spheres, ray, t_min, t_max) is Some ==> exists|i: int|
            0 <= i < spheres.len() && #[trigger] spheres[i].hit_spec(ray, t_min, t_max) == nearest_hit(
                spheres,
                ray,
                t_min,
                t_max,
            ),
        nearest_hit(spheres, ray, t_min, t_max) is Some ==> t_min < nearest_hit(spheres, ray, t_min, t_max)->0.t < t_max,
        forall|i: int|
            0 <= i < spheres.len() && (#[trigger] spheres[i].hit_spec(ray, t_min, t_max)) is Some
                ==> nearest_hit(spheres, ray, t_min, t_max)->0.t <= spheres[i].hit_spec(ray, t_min, t_max)->0.t,
    decreases spheres.len(),
{
    if spheres.len() > 0 {
        let prefix = spheres.drop_last();
        let last = spheres.last();
        let n = spheres.len() - 1;
        lemma_nearest_hit_is_nearest(prefix, ray, t_min, t_max);
        let before = nearest_hit(prefix, ray, t_min, t_max);
        let bound = match before {
            Some(h) => h.t as int,
            None => t_max,
        };
        assert(bound <= t_max);
        lemma_root_within_lower_bound(last, ray, t_min, t_max, bound);
        if root_within(last, ray, t_min, t_max) is Some {
            lemma_hit_parameter(last, ray, t_min, t_max);
        }
        if root_within(last, ray, t_min, bound) is Some {
            assert(spheres[n] == last);
        }
        assert forall|i: int|
            0 <= i < prefix.len() implies #[trigger] spheres[i] == prefix[i] by {}
        if before is Some {
            let i = choose|i: int|
                0 <= i < prefix.len() && #[trigger] prefix[i].hit_spec(ray, t_min, t_max) == before;
            assert(spheres[i] == prefix[i]);
        }
        assert forall|i: int|
            0 <= i < spheres.len() && (#[trigger] spheres[i].hit_spec(ray, t_min, t_max)) is Some implies
            nearest_hit(spheres, ray, t_min, t_max) is Some && nearest_hit(spheres, ray, t_min, t_max)->0.t
                <= spheres[i].hit_spec(ray, t_min, t_max)->0.t by {
            if i < n {
                assert(prefix[i] == spheres[i]);
            }
        }
    }
}

/// Which of two spheres comes first does not change whether the ray strikes
/// the pair, nor the parameter and point of the hit reported; unless the two
/// are struck at the same parameter, the normal is the same too.
pub proof fn lemma_nearest_hit_order_free(s1: Sphere, s2: Sphere, ray: Ray, t_min: int, t_max: int)
    requires
        -FAR <= t_min,
        t_max <= FAR,
    ensures
        nearest_hit(seq![s1, s2], ray, t_min, t_max) is Some <==> nearest_hit(seq![s2, s1], ray, t_min, t_max) is Some,
        nearest_hit(seq![s1, s2], ray, t_min, t_max) is Some ==> {
            &&& nearest_hit(seq![s1, s2], ray, t_min, t_max)->0.t == nearest_hit(seq![s2, s1], ray, t_min, t_max)->0.t
            &&& nearest_hit(seq![s1, s2], ray, t_min, t_max)->0.point == nearest_hit(seq![s2, s1], ray, t_min, t_max)->0.point
        },
        // Unless both are struck at the same parameter, the whole record agrees.
        !(s1.hit_spec(ray, t_min, t_max) is Some && s2.hit_spec(ray, t_min, t_max) is Some
            && s1.hit_spec(ray, t_min, t_max)->0.t == s2.hit_spec(ray, t_min, t_max)->0.t) ==> nearest_hit(
            seq![s1, s2],
            ray,
            t_min,
            t_max,
        ) == nearest_hit(seq![s2, s1], ray, t_min, t_max),
{
    let ab = seq![s1, s2];
    let ba = seq![s2, s1];
    lemma_nearest_hit_is_nearest(ab, ray, t_min, t_max);
    lemma_nearest_hit_is_nearest(ba, ray, t_min, t_max);
    assert(ab[0] == ba[1] && ab[1] == ba[0]);
    if nearest_hit(ab, ray, t_min, t_max) is Some {
        let h = nearest_hit(ab, ray, t_min, t_max)->0;
        let i = choose|i: int| 0 <= i < ab.len() && #[trigger] ab[i].hit_spec(ray, t_min, t_max) == nearest_hit(ab, ray, t_min, t_max);
        assert(ba[1 - i].hit_spec(ray, t_min, t_max) is Some);
        let g = nearest_hit(ba, ray, t_min, t_max)->0;
        let j = choose|j: int| 0 <= j < ba.len() && #[trigger] ba[j].hit_spec(ray, t_min, t_max) == nearest_hit(ba, ray, t_min, t_max);
        assert(ab[1 - j].hit_spec(ray, t_min, t_max) is Some);
        assert(h.t == g.t);
        lemma_hit_parameter(ab[i], ray, t_min, t_max);
        lemma_hit_parameter(ba[j], ray, t_min, t_max);
    } else {
        if nearest_hit(ba, ray, t_min, t_max) is Some {
            let j = choose|j: int| 0 <= j < ba.len() && #[trigger] ba[j].hit_spec(ray, t_min, t_max) is Some;
            assert(ab[1 - j].hit_spec(ray, t_min, t_max) is Some);
        }
    }
}

/// The normal of the nearest hit in a scene has length `ONE` up to rounding.
pub proof fn lemma_nearest_normal_is_unit(spheres: Seq<Sphere>, ray: Ray, t_min: int, t_max: int)
    requires
        all_well_formed(spheres),
        -FAR <= t_min,
        t_max <= FAR,
        nearest_hit(spheres, ray, t_min, t_max) is Some,
    ensures
        bounded(nearest_hit(spheres, ray, t_min, t_max)->0.normal@, ONE as int),
        ONE * ONE - 6 * ONE <= dot3(
            nearest_hit(spheres, ray, t_min, t_max)->0.normal@,
            nearest_hit(spheres, ray, t_min, t_max)->0.normal@,
        ) <= ONE * ONE + 10 * ONE,
{
    lemma_nearest_hit_is_nearest(spheres, ray, t_min, t_max);
    let i = choose|i: int|
        0 <= i < spheres.len() && #[trigger] spheres[i].hit_spec(ray, t_min, t_max) == nearest_hit(
            spheres,
            ray,
            t_min,
            t_max,
        );
    lemma_hit_normal_is_unit(spheres[i], ray, t_min, t_max);
}

} // verus!
