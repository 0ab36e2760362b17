//! Intersections of rays with surfaces.

use vstd::prelude::*;

use crate::fixed::Fixed;
use crate::material::Material;
use crate::ray::Ray;
use crate::vec::{Point3, Vec3};

verus! {

/// Where and how a ray met a surface.
#[derive(Clone, Copy, Debug, PartialEq, Eq, Structural)]
pub struct HitRecord {
    /// The ray parameter of the hit.
    pub t: Fixed,
    /// The point of the hit.
    pub p: Point3,
    /// The surface normal at `p`, turned against the ray.
    pub normal: Vec3,
    /// Whether the ray came from outside the surface.
    pub front_face: bool,
    /// The material of the surface.
    pub mat: Material,
}

impl HitRecord {
    /// The ray `r` meets a surface with outward normal `outward` from outside.
    pub open spec fn front_face_spec(r: Ray, outward: Vec3) -> bool {
        r.direction.dot_spec(outward)@ < 0
    }

    /// The normal turned against the ray: `outward` for a ray from outside,
    /// its negation for a ray from inside.
    pub open spec fn face_normal_spec(r: Ray, outward: Vec3) -> Vec3 {
        if Self::front_face_spec(r, outward) {
            outward
        } else {
            outward.neg_spec()
        }
    }

    /// The normal of a hit is turned against the ray: its component along
    /// the direction of the ray is not positive. It holds where no component
    /// of the direction or of the outward normal is above `2^14` in
    /// magnitude, so that the dot product does not saturate.
    pub proof fn lemma_normal_against_ray(r: Ray, outward: Vec3)
        requires
            r.direction.within(0x4000_0000_0000),
            outward.within(0x4000_0000_0000),
        ensures
            r.direction.dot_spec(Self::face_normal_spec(r, outward))@ <= 0,
            !Self::front_face_spec(r, outward) ==> r.direction.dot_spec(
                Self::face_normal_spec(r, outward),
            )@ == -r.direction.dot_spec(outward)@,
    {
        let d = r.direction;
        if !Self::front_face_spec(r, outward) {
            let n = outward.neg_spec();
            d.x.lemma_mul_error(outward.x);
            d.y.lemma_mul_error(outward.y);
            d.z.lemma_mul_error(outward.z);
            assert(d.x@ * n.x@ == -(d.x@ * outward.x@) && d.y@ * n.y@ == -(d.y@ * outward.y@)
                && d.z@ * n.z@ == -(d.z@ * outward.z@)) by (nonlinear_arith)
                requires
                    n.x@ == -outward.x@,
                    n.y@ == -outward.y@,
                    n.z@ == -outward.z@,
            ;
            assert(d.x.mul_spec(n.x)@ == -d.x.mul_spec(outward.x)@);
            assert(d.y.mul_spec(n.y)@ == -d.y.mul_spec(outward.y)@);
            assert(d.z.mul_spec(n.z)@ == -d.z.mul_spec(outward.z)@);
        }
    }

    /// Sets `front_face` and `normal` from the outward normal of the surface.
    pub fn set_face_normal(&mut self, r: &Ray, outward_normal: Vec3)
        ensures
            final(self).front_face == Self::front_face_spec(*r, outward_normal),
            final(self).normal == Self::face_normal_spec(*r, outward_normal),
            final(self).t == old(self).t,
            final(self).p == old(self).p,
            final(self).mat == old(self).mat,
    {
        self.front_face = r.direction().dot(outward_normal).raw < 0;
        self.normal = if self.front_face {
            outward_normal
        } else {
            outward_normal.neg()
        };
    }
}

/// What is left of a hit when only parameters up to `t_cut` count.
pub open spec fn narrowed(h: Option<HitRecord>, t_cut: Fixed) -> Option<HitRecord> {
    match h {
        Some(rec) => if rec.t@ <= t_cut@ {
            h
        } else {
            None
        },
        None => None,
    }
}

/// The capability to be hit by a ray.
///
/// `hit` reports the hit that counts within `[t_min, t_max]`, if there is one.
/// An implementation owes two laws, on which the search for the nearest hit in
/// a [`World`] rests: the hit lies within the interval, and lowering `t_max`
/// changes nothing but to drop a hit that lies beyond the new bound.
pub trait Hit {
    spec fn hit_spec(&self, r: Ray, t_min: Fixed, t_max: Fixed) -> Option<HitRecord>;

    fn hit(&self, r: &Ray, t_min: Fixed, t_max: Fixed) -> (res: Option<HitRecord>)
        ensures
            res == self.hit_spec(*r, t_min, t_max),
    ;

    /// A hit lies within the interval asked for.
    proof fn lemma_hit_within(&self, r: Ray, t_min: Fixed, t_max: Fixed)
        ensures
            self.hit_spec(r, t_min, t_max) matches Some(rec) ==> t_min@ <= rec.t@ <= t_max@,
    ;

    /// Lowering the upper bound to `t_cut` keeps the hit if it lies within
    /// the new bound and gives none otherwise.
    proof fn lemma_hit_narrowed(&self, r: Ray, t_min: Fixed, t_max: Fixed, t_cut: Fixed)
        requires
            t_cut@ <= t_max@,
        ensures
            self.hit_spec(r, t_min, t_cut) == narrowed(self.hit_spec(r, t_min, t_max), t_cut),
    ;
}

/// The upper bound that is left for later objects once `best` was found.
pub open spec fn limit_after(best: Option<HitRecord>, t_max: Fixed) -> Fixed {
    match best {
        Some(rec) => rec.t,
        None => t_max,
    }
}

/// The hit that a scan of `objs` from the front ends with: each object is
/// asked for a hit no farther than the best one before it, and a hit it
/// reports replaces that one.
pub open spec fn nearest_hit<T: Hit>(objs: Seq<T>, r: Ray, t_min: Fixed, t_max: Fixed) -> Option<
    HitRecord,
>
    decreases objs.len(),
{
    if objs.len() == 0 {
        None
    } else {
        let before = nearest_hit(objs.drop_last(), r, t_min, t_max);
        match objs.last().hit_spec(r, t_min, limit_after(before, t_max)) {
            Some(rec) => Some(rec),
            None => before,
        }
    }
}

/// A hit found by the scan lies within the interval asked for.
pub proof fn lemma_nearest_within<T: Hit>(objs: Seq<T>, r: Ray, t_min: Fixed, t_max: Fixed)
    ensures
        nearest_hit(objs, r, t_min, t_max) matches Some(rec) ==> t_min@ <= rec.t@ <= t_max@,
    decreases objs.len(),
{
    if objs.len() > 0 {
        let before = nearest_hit(objs.drop_last(), r, t_min, t_max);
        lemma_nearest_within(objs.drop_last(), r, t_min, t_max);
        objs.last().lemma_hit_within(r, t_min, limit_after(before, t_max));
    }
}

/// The scan finds the nearest hit. If any object is hit within
/// `[t_min, t_max]`, the scan ends with a hit that is no farther than that
/// one; and a hit that the scan ends with is the hit of one of the objects.
pub proof fn lemma_nearest_is_nearest<T: Hit>(objs: Seq<T>, r: Ray, t_min: Fixed, t_max: Fixed)
    ensures
        forall|i: int|
            0 <= i < objs.len() ==> (#[trigger] objs[i].hit_spec(r, t_min, t_max) matches Some(
                other,
            ) ==> (nearest_hit(objs, r, t_min, t_max) matches Some(rec) && rec.t@ <= other.t@)),
        nearest_hit(objs, r, t_min, t_max) matches Some(rec) ==> exists|i: int|
            0 <= i < objs.len() && #[trigger] objs[i].hit_spec(r, t_min, t_max) == Some(rec),
    decreases objs.len(),
{
    if objs.len() > 0 {
        let front = objs.drop_last();
        let last = objs.last();
        let before = nearest_hit(front, r, t_min, t_max);
        let limit = limit_after(before, t_max);
        let found = nearest_hit(objs, r, t_min, t_max);
        lemma_nearest_is_nearest(front, r, t_min, t_max);
        lemma_nearest_within(front, r, t_min, t_max);
        last.lemma_hit_within(r, t_min, limit);
        last.lemma_hit_narrowed(r, t_min, t_max, limit);
        assert forall|i: int| 0 <= i < objs.len() implies (#[trigger] objs[i].hit_spec(
            r,
            t_min,
            t_max,
        ) matches Some(other) ==> (found matches Some(rec) && rec.t@ <= other.t@)) by {
            if i < objs.len() - 1 {
                assert(front[i] == objs[i]);
            }
        }
        if let Some(rec) = found {
            if last.hit_spec(r, t_min, limit) is Some {
                assert(objs[objs.len() - 1].hit_spec(r, t_min, t_max) == Some(rec));
            } else {
                let i = choose|i: int|
                    0 <= i < front.len() && #[trigger] front[i].hit_spec(r, t_min, t_max) == Some(
                        rec,
                    );
                assert(objs[i] == front[i]);
            }
        }
    }
}

/// Lowering the upper bound of the scan to `t_cut` keeps the hit it ends with
/// if that lies within the new bound, and gives none otherwise.
pub proof fn lemma_nearest_narrowed<T: Hit>(
    objs: Seq<T>,
    r: Ray,
    t_min: Fixed,
    t_max: Fixed,
    t_cut: Fixed,
)
    requires
        t_cut@ <= t_max@,
    ensures
        nearest_hit(objs, r, t_min, t_cut) == narrowed(nearest_hit(objs, r, t_min, t_max), t_cut),
    decreases objs.len(),
{
    if objs.len() > 0 {
        let front = objs.drop_last();
        let last = objs.last();
        let before = nearest_hit(front, r, t_min, t_max);
        let before_cut = nearest_hit(front, r, t_min, t_cut);
        lemma_nearest_narrowed(front, r, t_min, t_max, t_cut);
        lemma_nearest_within(front, r, t_min, t_max);
        let limit = limit_after(before, t_max);
        let limit_cut = limit_after(before_cut, t_cut);
        last.lemma_hit_within(r, t_min, limit);
        last.lemma_hit_within(r, t_min, limit_cut);
        last.lemma_hit_narrowed(r, t_min, limit, limit_cut);
    }
}

/// No object is hit at the parameter of `rec` with another record than `rec`.
pub open spec fn sole_at<T: Hit>(
    objs: Seq<T>,
    r: Ray,
    t_min: Fixed,
    t_max: Fixed,
    rec: HitRecord,
) -> bool {
    forall|i: int|
        0 <= i < objs.len() ==> (#[trigger] objs[i].hit_spec(r, t_min, t_max) matches Some(other)
            ==> (other.t == rec.t ==> other == rec))
}

/// The nearest hit does not depend on the order of the objects. Two scenes
/// with the same objects, each as often in one as in the other, are hit by
/// the same rays and at the same parameter; and where no two objects tie at
/// that parameter with different records, the whole record is the same.
pub proof fn lemma_nearest_order_free<T: Hit>(
    objs1: Seq<T>,
    objs2: Seq<T>,
    r: Ray,
    t_min: Fixed,
    t_max: Fixed,
)
    requires
        objs1.to_multiset() == objs2.to_multiset(),
    ensures
        nearest_hit(objs1, r, t_min, t_max) is Some == nearest_hit(objs2, r, t_min, t_max) is Some,
        nearest_hit(objs1, r, t_min, t_max) matches Some(rec1) ==> nearest_hit(
            objs2,
            r,
            t_min,
            t_max,
        ) matches Some(rec2) && rec1.t == rec2.t && (sole_at(objs1, r, t_min, t_max, rec1)
            ==> rec1 == rec2),
{
    lemma_nearest_is_nearest(objs1, r, t_min, t_max);
    lemma_nearest_is_nearest(objs2, r, t_min, t_max);
    objs1.to_multiset_ensures();
    objs2.to_multiset_ensures();
    let found1 = nearest_hit(objs1, r, t_min, t_max);
    let found2 = nearest_hit(objs2, r, t_min, t_max);
    if let Some(rec1) = found1 {
        let i = choose|i: int|
            0 <= i < objs1.len() && #[trigger] objs1[i].hit_spec(r, t_min, t_max) == Some(rec1);
        assert(objs1.contains(objs1[i]));
        assert(objs1.to_multiset().count(objs1[i]) > 0);
        assert(objs2.to_multiset().count(objs1[i]) > 0);
        assert(objs2.contains(objs1[i]));
        let j = choose|j: int| 0 <= j < objs2.len() && objs2[j] == objs1[i];
        assert(objs2[j].hit_spec(r, t_min, t_max) == Some(rec1));
    }
    if let Some(rec2) = found2 {
        let i = choose|i: int|
            0 <= i < objs2.len() && #[trigger] objs2[i].hit_spec(r, t_min, t_max) == Some(rec2);
        assert(objs2.contains(objs2[i]));
        assert(objs2.to_multiset().count(objs2[i]) > 0);
        assert(objs1.to_multiset().count(objs2[i]) > 0);
        assert(objs1.contains(objs2[i]));
        let j = choose|j: int| 0 <= j < objs1.len() && objs1[j] == objs2[i];
        assert(objs1[j].hit_spec(r, t_min, t_max) == Some(rec2));
    }
}

/// A scene: objects in the order in which they were added.
pub struct World<T: Hit> {
    pub objects: Vec<T>,
}

impl<T: Hit> View for World<T> {
    type V = Seq<T>;

    open spec fn view(&self) -> Seq<T> {
        self.objects@
    }
}

impl<T: Hit> World<T> {
    /// The empty scene.
    pub fn new() -> (w: World<T>)
        ensures
            w@ == Seq::<T>::empty(),
    {
        World { objects: Vec::new() }
    }

    /// Adds `object` behind the others.
    pub fn push(&mut self, object: T)
        ensures
            final(self)@ == old(self)@.push(object),
    {
        self.objects.push(object);
    }

    /// The number of objects.
    pub fn len(&self) -> (n: usize)
        ensures
            n == self@.len(),
    {
        self.objects.len()
    }
}

impl<T: Hit> Hit for World<T> {
    open spec fn hit_spec(&self, r: Ray, t_min: Fixed, t_max: Fixed) -> Option<HitRecord> {
        nearest_hit(self@, r, t_min, t_max)
    }

    /// The nearest hit among all objects: no object is hit within
    /// `[t_min, t_max]` at a smaller parameter, and there is no hit only if
    /// no object is hit.
    fn hit(&self, r: &Ray, t_min: Fixed, t_max: Fixed) -> (res: Option<HitRecord>)
        ensures
            forall|i: int|
                0 <= i < self@.len() ==> (#[trigger] self@[i].hit_spec(*r, t_min, t_max) matches Some(
                    other,
                ) ==> (res matches Some(rec) && rec.t@ <= other.t@)),
            res matches Some(rec) ==> t_min@ <= rec.t@ <= t_max@ && exists|i: int|
                0 <= i < self@.len() && #[trigger] self@[i].hit_spec(*r, t_min, t_max) == Some(rec),
    {
        let mut best: Option<HitRecord> = None;
        let mut closest_so_far = t_max;
        let n = self.objects.len();
        let mut i: usize = 0;
        while i < n
            invariant
                n == self.objects.len(),
                i <= n,
                best == nearest_hit(self@.take(i as int), *r, t_min, t_max),
                closest_so_far == limit_after(best, t_max),
            decreases n - i,
        {
            proof {
                assert(self@.take(i + 1).drop_last() =~= self@.take(i as int));
                assert(self@.take(i + 1).last() == self@[i as int]);
            }
            if let Some(rec) = self.objects[i].hit(r, t_min, closest_so_far) {
                closest_so_far = rec.t;
                best = Some(rec);
            }
            i = i + 1;
        }
        proof {
            assert(self@.take(n as int) =~= self@);
            lemma_nearest_is_nearest(self@, *r, t_min, t_max);
            lemma_nearest_within(self@, *r, t_min, t_max);
        }
        best
    }

    proof fn lemma_hit_within(&self, r: Ray, t_min: Fixed, t_max: Fixed) {
        lemma_nearest_within(self@, r, t_min, t_max);
    }

    proof fn lemma_hit_narrowed(&self, r: Ray, t_min: Fixed, t_max: Fixed, t_cut: Fixed) {
        lemma_nearest_narrowed(self@, r, t_min, t_max, t_cut);
    }
}

} // verus!
