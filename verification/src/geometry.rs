//! Which intersection counts: the root of one ray-sphere equation that is the
//! hit, and the sphere of a scene that is hit first.
//!
//! For a ray and a sphere the numeric kernel solves
//! `a t^2 + 2 half_b t + c = 0` and hands over the discriminant and the two
//! roots, `(-half_b - root) / a` and `(-half_b + root) / a`. Everything that is
//! decided from these numbers is decided here.

use vstd::prelude::*;
use crate::scalar::Scalar;

verus! {

/// What one ray's line has to do with one sphere: the discriminant of their
/// quadratic equation and its two roots, the smaller one first.
#[derive(Clone, Copy, Debug, PartialEq, Eq, Structural)]
pub struct Crossing {
    pub discriminant: Scalar,
    pub first: Scalar,
    pub second: Scalar,
}

/// One of the two roots of a crossing.
#[derive(Clone, Copy, Debug, PartialEq, Eq, Structural)]
pub enum Root {
    First,
    Second,
}

/// The nearest intersection of a ray with a scene: the position of the sphere
/// in the scene, the root that was accepted, and its value, the parameter of
/// the hit point along the ray.
#[derive(Clone, Copy, Debug, PartialEq, Eq, Structural)]
pub struct Hit {
    pub index: usize,
    pub root: Root,
    pub t: Scalar,
}

/// `t` lies strictly inside the open interval from `t_min` to `t_max`.
pub open spec fn inside(t: Scalar, t_min: Scalar, t_max: Scalar) -> bool {
    t.spec_lt(t_max) && t.spec_gt(t_min)
}

impl Crossing {
    /// The value of a root.
    pub open spec fn root(self, which: Root) -> Scalar {
        match which {
            Root::First => self.first,
            Root::Second => self.second,
        }
    }

    /// The root that counts as the hit within an interval: none unless the
    /// discriminant is positive, else the first root if it lies strictly
    /// inside, else the second if that one does.
    pub open spec fn choice(self, t_min: Scalar, t_max: Scalar) -> Option<Root> {
        if !self.discriminant.spec_gt(Scalar { bits: 0 }) {
            None
        } else if inside(self.first, t_min, t_max) {
            Some(Root::First)
        } else if inside(self.second, t_min, t_max) {
            Some(Root::Second)
        } else {
            None
        }
    }

    /// A crossing as the kernel computes it for a ray of non-zero direction:
    /// where the line meets the sphere, both roots are numbers and the first
    /// is not the larger.
    pub open spec fn ordered(self) -> bool {
        self.discriminant.spec_gt(Scalar { bits: 0 }) ==> {
            &&& !self.first.is_nan()
            &&& !self.second.is_nan()
            &&& self.first.key() <= self.second.key()
        }
    }

    pub fn value(&self, which: Root) -> (t: Scalar)
        ensures
            t == self.root(which),
    {
        match which {
            Root::First => self.first,
            Root::Second => self.second,
        }
    }

    /// The root at which the ray hits the sphere within `(t_min, t_max)`.
    pub fn hit(&self, t_min: Scalar, t_max: Scalar) -> (r: Option<Root>)
        ensures
            r == self.choice(t_min, t_max),
    {
        let zero = Scalar::zero();
        if !self.discriminant.gt(&zero) {
            None
        } else if self.first.lt(&t_max) && self.first.gt(&t_min) {
            Some(Root::First)
        } else if self.second.lt(&t_max) && self.second.gt(&t_min) {
            Some(Root::Second)
        } else {
            None
        }
    }
}

/// Where the line meets the sphere, the hit is a root inside the interval, and
/// of the roots inside the interval it is the smallest; where there is no hit,
/// no root lies inside.
pub proof fn lemma_hit_is_smallest_root_inside(
    crossing: Crossing,
    t_min: Scalar,
    t_max: Scalar,
    which: Root,
)
    requires
        crossing.ordered(),
        crossing.discriminant.spec_gt(Scalar { bits: 0 }),
    ensures
        crossing.choice(t_min, t_max) matches Some(chosen) ==> inside(
            crossing.root(chosen),
            t_min,
            t_max,
        ),
        inside(crossing.root(which), t_min, t_max) ==> crossing.choice(t_min, t_max) is Some
            && crossing.root(crossing.choice(t_min, t_max).unwrap()).key() <= crossing.root(
            which,
        ).key(),
{
}

/// Whether a ray struck the outward-facing side of a surface: it did if its
/// direction and the outward normal point against each other, that is if their
/// dot product, `facing`, is below zero. Where it did not, the normal that is
/// kept with the hit is the outward one negated.
pub fn front_face(facing: Scalar) -> (front: bool)
    ensures
        front == facing.spec_lt(Scalar { bits: 0 }),
{
    let zero = Scalar::zero();
    facing.lt(&zero)
}

/// The dot product of the ray's direction with the normal that is kept with a
/// hit: `facing` itself where the ray struck the front, its negation where it
/// did not.
pub open spec fn kept_facing(facing: Scalar) -> Scalar {
    if facing.spec_lt(Scalar { bits: 0 }) {
        facing
    } else {
        facing.spec_neg()
    }
}

/// The normal that is kept with a hit points against the ray: its dot product
/// with the ray's direction is never above zero.
pub proof fn lemma_kept_normal_opposes_ray(facing: Scalar)
    ensures
        !kept_facing(facing).spec_gt(Scalar { bits: 0 }),
        !facing.is_nan() ==> kept_facing(facing).key() <= 0,
{
}

/// The upper bound that a scan goes on with after a result.
pub open spec fn bound_after(found: Option<Hit>, t_max: Scalar) -> Scalar {
    match found {
        Some(h) => h.t,
        None => t_max,
    }
}

/// The result of scanning the spheres in order, each one within the interval
/// that ends at the closest hit found before it.
pub open spec fn scan(spheres: Seq<Crossing>, t_min: Scalar, t_max: Scalar) -> Option<Hit>
    decreases spheres.len(),
{
    if spheres.len() == 0 {
        None
    } else {
        let before = scan(spheres.drop_last(), t_min, t_max);
        let last = spheres.last();
        match last.choice(t_min, bound_after(before, t_max)) {
            Some(which) => Some(
                Hit { index: (spheres.len() - 1) as usize, root: which, t: last.root(which) },
            ),
            None => before,
        }
    }
}

/// All crossings are as the kernel computes them, and the interval's ends are
/// numbers.
pub open spec fn all_ordered(spheres: Seq<Crossing>, t_min: Scalar, t_max: Scalar) -> bool {
    &&& !t_min.is_nan()
    &&& !t_max.is_nan()
    &&& forall|i: int| 0 <= i < spheres.len() ==> (#[trigger] spheres[i]).ordered()
}

/// `found` is the nearest intersection within `(t_min, t_max)`: nothing if no
/// sphere is hit there; else a sphere's own hit in that interval, not farther
/// than any other sphere's, and strictly nearer than that of every sphere
/// before it in the scene.
pub open spec fn is_nearest(
    spheres: Seq<Crossing>,
    t_min: Scalar,
    t_max: Scalar,
    found: Option<Hit>,
) -> bool {
    match found {
        None => forall|i: int|
            0 <= i < spheres.len() ==> (#[trigger] spheres[i]).choice(t_min, t_max) is None,
        Some(h) => {
            &&& h.index < spheres.len()
            &&& spheres[h.index as int].choice(t_min, t_max) == Some(h.root)
            &&& h.t == spheres[h.index as int].root(h.root)
            &&& inside(h.t, t_min, t_max)
            &&& forall|i: int|
                0 <= i < spheres.len() && (#[trigger] spheres[i]).choice(t_min, t_max) is Some
                    ==> h.t.key() <= spheres[i].root(
                    spheres[i].choice(t_min, t_max).unwrap(),
                ).key()
            &&& forall|i: int|
                0 <= i < h.index && (#[trigger] spheres[i]).choice(t_min, t_max) is Some
                    ==> h.t.key() < spheres[i].root(spheres[i].choice(t_min, t_max).unwrap()).key()
        },
    }
}

/// Shrinking the interval loses nothing: the scan returns the nearest
/// intersection of the whole interval.
pub proof fn lemma_scan_is_nearest(spheres: Seq<Crossing>, t_min: Scalar, t_max: Scalar)
    requires
        all_ordered(spheres, t_min, t_max),
        spheres.len() <= usize::MAX,
    ensures
        is_nearest(spheres, t_min, t_max, scan(spheres, t_min, t_max)),
    decreases spheres.len(),
{
    if spheres.len() > 0 {
        let shorter = spheres.drop_last();
        let last = spheres.last();
        let top = spheres.len() - 1;
        assert forall|i: int| 0 <= i < shorter.len() implies (#[trigger] shorter[i]).ordered() by {
            assert(shorter[i] == spheres[i]);
        }
        lemma_scan_is_nearest(shorter, t_min, t_max);
        let before = scan(shorter, t_min, t_max);
        let bound = bound_after(before, t_max);
        assert(!bound.is_nan() && bound.key() <= t_max.key());
        assert(spheres[top].ordered());
        match last.choice(t_min, bound) {
            Some(which) => {
                let t = last.root(which);
                assert(inside(t, t_min, bound));
                assert(last.choice(t_min, t_max) == Some(which));
                assert forall|i: int|
                    0 <= i < top && (#[trigger] spheres[i]).choice(
                        t_min,
                        t_max,
                    ) is Some implies t.key() < spheres[i].root(
                    spheres[i].choice(t_min, t_max).unwrap(),
                ).key() by {
                    assert(shorter[i] == spheres[i]);
                }
            },
            None => {
                match before {
                    Some(h) => {
                        assert(shorter[h.index as int] == spheres[h.index as int]);
                        assert forall|i: int|
                            0 <= i < spheres.len() && (#[trigger] spheres[i]).choice(
                                t_min,
                                t_max,
                            ) is Some implies h.t.key() <= spheres[i].root(
                            spheres[i].choice(t_min, t_max).unwrap(),
                        ).key() by {
                            if i < top {
                                assert(shorter[i] == spheres[i]);
                            }
                        }
                        assert forall|i: int|
                            0 <= i < h.index && (#[trigger] spheres[i]).choice(
                                t_min,
                                t_max,
                            ) is Some implies h.t.key() < spheres[i].root(
                            spheres[i].choice(t_min, t_max).unwrap(),
                        ).key() by {
                            assert(shorter[i] == spheres[i]);
                        }
                    },
                    None => {
                        assert forall|i: int| 0 <= i < spheres.len() implies (
                        #[trigger] spheres[i]).choice(t_min, t_max) is None by {
                            if i < top {
                                assert(shorter[i] == spheres[i]);
                            }
                        }
                    },
                }
            },
        }
    }
}

/// The order of the spheres in a scene does not matter to where the ray is
/// stopped: two scenes of the same spheres are hit at the same parameter, or
/// both not at all.
pub proof fn lemma_order_is_irrelevant(
    a: Seq<Crossing>,
    b: Seq<Crossing>,
    t_min: Scalar,
    t_max: Scalar,
)
    requires
        all_ordered(a, t_min, t_max),
        a.to_multiset() == b.to_multiset(),
        a.len() <= usize::MAX,
    ensures
        scan(a, t_min, t_max) is None <==> scan(b, t_min, t_max) is None,
        scan(a, t_min, t_max) is Some ==> scan(a, t_min, t_max).unwrap().t.key() == scan(
            b,
            t_min,
            t_max,
        ).unwrap().t.key(),
{
    a.to_multiset_ensures();
    b.to_multiset_ensures();
    assert forall|j: int| 0 <= j < b.len() implies (#[trigger] b[j]).ordered() by {
        assert(b.contains(b[j]));
        assert(a.to_multiset().count(b[j]) > 0);
        assert(a.contains(b[j]));
        let i = choose|i: int| 0 <= i < a.len() && a[i] == b[j];
        assert(a[i].ordered());
    }
    lemma_scan_is_nearest(a, t_min, t_max);
    lemma_scan_is_nearest(b, t_min, t_max);
    if let Some(h) = scan(a, t_min, t_max) {
        let e = a[h.index as int];
        assert(a.contains(e));
        assert(b.to_multiset().count(e) > 0);
        assert(b.contains(e));
        let j = choose|j: int| 0 <= j < b.len() && b[j] == e;
        assert(b[j].choice(t_min, t_max) is Some);
    }
    if let Some(g) = scan(b, t_min, t_max) {
        let e = b[g.index as int];
        assert(b.contains(e));
        assert(a.to_multiset().count(e) > 0);
        assert(a.contains(e));
        let i = choose|i: int| 0 <= i < a.len() && a[i] == e;
        assert(a[i].choice(t_min, t_max) is Some);
    }
}

/// The spheres of a scene as one ray meets them: one crossing for each sphere,
/// in the order of the scene.
pub struct HittableList {
    pub spheres: Vec<Crossing>,
}

impl HittableList {
    /// The nearest intersection of the ray with the scene within
    /// `(t_min, t_max)`. The spheres are tried in order, each only against the
    /// closest hit so far; of two spheres hit at the same parameter the
    /// earlier one is reported.
    pub fn hit(&self, t_min: Scalar, t_max: Scalar) -> (found: Option<Hit>)
        ensures
            found == scan(self.spheres@, t_min, t_max),
            all_ordered(self.spheres@, t_min, t_max) ==> is_nearest(
                self.spheres@,
                t_min,
                t_max,
                found,
            ),
    {
        let mut found: Option<Hit> = None;
        let mut closest_so_far = t_max;
        let mut i: usize = 0;
        while i < self.spheres.len()
            invariant
                i <= self.spheres.len(),
                found == scan(self.spheres@.take(i as int), t_min, t_max),
                closest_so_far == bound_after(found, t_max),
            decreases self.spheres.len() - i,
        {
            let sphere = &self.spheres[i];
            proof {
                let longer = self.spheres@.take(i + 1);
                assert(longer.drop_last() =~= self.spheres@.take(i as int));
                assert(longer.last() == self.spheres@[i as int]);
            }
            if let Some(which) = sphere.hit(t_min, closest_so_far) {
                let t = sphere.value(which);
                closest_so_far = t;
                found = Some(Hit { index: i, root: which, t });
            }
            i += 1;
        }
        proof {
            assert(self.spheres@.take(i as int) =~= self.spheres@);
            if all_ordered(self.spheres@, t_min, t_max) {
                lemma_scan_is_nearest(self.spheres@, t_min, t_max);
            }
        }
        found
    }
}

} // verus!
