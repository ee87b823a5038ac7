//! A scene: surfaces in the order in which they were added.
use crate::hittable::{HitRecord, Hittable};
use crate::rays::Ray;
use crate::scalar::Scalar;
use vstd::prelude::*;

verus! {

/// The surfaces of a scene. A ray is tested against each in turn.
pub struct HittableList<H> {
    objects: Vec<H>,
}

/// The upper end of the interval that is left once `best` has been found:
/// the parameter of that meeting, or `t_max` while there is none.
pub open spec fn bound_after(best: Option<HitRecord>, t_max: Scalar) -> Scalar {
    match best {
        Some(h) => h.t,
        None => t_max,
    }
}

/// The meeting that a scan of `objects` keeps. Each surface is asked for a
/// meeting strictly between `t_min` and the parameter of the meeting kept so
/// far (at first `t_max`); one that answers replaces what was kept.
pub open spec fn scan<H: Hittable>(objects: Seq<H>, r: Ray, t_min: Scalar, t_max: Scalar) -> Option<
    HitRecord,
>
    decreases objects.len(),
{
    if objects.len() == 0 {
        None
    } else {
        let before = scan(objects.drop_last(), r, t_min, t_max);
        match objects.last().hit_spec(r, t_min, bound_after(before, t_max)) {
            Some(h) => Some(h),
            None => before,
        }
    }
}

/// What is left of an answer once the interval ends at `upper`: the same
/// meeting where it lies strictly below, else none.
pub open spec fn narrowed(answer: Option<HitRecord>, upper: Scalar) -> Option<HitRecord> {
    match answer {
        Some(h) => if h.t.spec_lt(upper) {
            Some(h)
        } else {
            None
        },
        None => None,
    }
}

/// A surface that answers a ray with its first meeting above `t_min`: every
/// answer lies strictly inside the interval asked for, and a lower end of the
/// interval gives the same meeting while it still fits, else none.
pub open spec fn answers_nearest<H: Hittable>(o: H, r: Ray, t_min: Scalar) -> bool {
    &&& forall|upper: Scalar| (#[trigger] o.hit_spec(r, t_min, upper)) matches Some(h) ==> t_min.spec_lt(h.t)
        && h.t.spec_lt(upper)
    &&& forall|upper: Scalar, lower: Scalar|
        #![trigger o.hit_spec(r, t_min, lower), o.hit_spec(r, t_min, upper)]
        lower.spec_le(upper) ==> o.hit_spec(r, t_min, lower) == narrowed(o.hit_spec(r, t_min, upper), lower)
}

/// The scan has kept the meeting `h` of the surface at `i`: among the
/// meetings that the surfaces have with the ray between `t_min` and `t_max`,
/// none is closer, and none of an earlier surface is as close.
pub open spec fn closest_at<H: Hittable>(
    objects: Seq<H>,
    r: Ray,
    t_min: Scalar,
    t_max: Scalar,
    h: HitRecord,
    i: int,
) -> bool {
    &&& 0 <= i < objects.len()
    &&& objects[i].hit_spec(r, t_min, t_max) == Some(h)
    &&& forall|j: int|
        0 <= j < objects.len() ==> ((#[trigger] objects[j].hit_spec(r, t_min, t_max)) matches Some(g) ==> h.t.spec_le(
            g.t,
        ) && (j < i ==> h.t.spec_lt(g.t)))
}

/// A scene returns the closest meeting. Where every surface answers with its
/// first meeting inside the interval asked for, the scan finds nothing only
/// if no surface meets the ray between `t_min` and `t_max`; else it keeps a
/// meeting that no other precedes, and of equally close ones that of the
/// surface added first.
pub proof fn lemma_scan_closest<H: Hittable>(objects: Seq<H>, r: Ray, t_min: Scalar, t_max: Scalar)
    requires
        forall|i: int| 0 <= i < objects.len() ==> answers_nearest(#[trigger] objects[i], r, t_min),
    ensures
        match scan(objects, r, t_min, t_max) {
            None => forall|j: int|
                0 <= j < objects.len() ==> (#[trigger] objects[j].hit_spec(r, t_min, t_max)) is None,
            Some(h) => t_min.spec_lt(h.t) && h.t.spec_lt(t_max) && exists|i: int|
                closest_at(objects, r, t_min, t_max, h, i),
        },
    decreases objects.len(),
{
    if objects.len() > 0 {
        let init = objects.drop_last();
        let o = objects.last();
        let n = init.len() as int;
        assert forall|i: int| 0 <= i < init.len() implies answers_nearest(#[trigger] init[i], r, t_min) by {
            assert(init[i] == objects[i]);
        }
        lemma_scan_closest(init, r, t_min, t_max);
        assert(answers_nearest(objects[n], r, t_min));
        let before = scan(init, r, t_min, t_max);
        let asked = o.hit_spec(r, t_min, bound_after(before, t_max));
        let whole = o.hit_spec(r, t_min, t_max);
        match before {
            None => {
                assert forall|j: int| 0 <= j < n implies (#[trigger] objects[j].hit_spec(r, t_min, t_max)) is None by {
                    assert(init[j] == objects[j]);
                }
                if let Some(h) = asked {
                    assert(closest_at(objects, r, t_min, t_max, h, n));
                }
            },
            Some(p) => {
                let k = choose|k: int| closest_at(init, r, t_min, t_max, p, k);
                assert(closest_at(init, r, t_min, t_max, p, k));
                assert(init[k] == objects[k]);
                assert(p.t.spec_le(t_max));
                assert(asked == narrowed(whole, p.t));
                match asked {
                    Some(h) => {
                        assert(whole == Some(h));
                        assert forall|j: int| 0 <= j < objects.len() implies ((
                        #[trigger] objects[j].hit_spec(r, t_min, t_max)) matches Some(g) ==> h.t.spec_le(g.t) && (j
                            < n ==> h.t.spec_lt(g.t))) by {
                            if j < n {
                                assert(init[j] == objects[j]);
                            }
                        }
                        assert(closest_at(objects, r, t_min, t_max, h, n));
                    },
                    None => {
                        assert forall|j: int| 0 <= j < objects.len() implies ((
                        #[trigger] objects[j].hit_spec(r, t_min, t_max)) matches Some(g) ==> p.t.spec_le(g.t) && (j
                            < k ==> p.t.spec_lt(g.t))) by {
                            if j < n {
                                assert(init[j] == objects[j]);
                            }
                        }
                        assert(closest_at(objects, r, t_min, t_max, p, k));
                    },
                }
            },
        }
    }
}

/// Asking again changes nothing: two answers of one scene to one ray and one
/// interval are the same record, bit for bit, or both none.
pub proof fn lemma_hit_repeats<H: Hittable>(
    world: &HittableList<H>,
    r: &Ray,
    t_min: Scalar,
    t_max: Scalar,
    first: Option<HitRecord>,
    second: Option<HitRecord>,
)
    requires
        call_ensures(HittableList::<H>::hit, (world, r, t_min, t_max), first),
        call_ensures(HittableList::<H>::hit, (world, r, t_min, t_max), second),
    ensures
        first == second,
{
}

impl<H> HittableList<H> {
    /// The surfaces, first added first.
    pub closed spec fn view(&self) -> Seq<H> {
        self.objects@
    }

    /// The empty scene.
    pub fn new() -> (list: HittableList<H>)
        ensures
            list@ == Seq::<H>::empty(),
    {
        HittableList { objects: Vec::new() }
    }

    /// Adds a surface behind those that are there.
    pub fn add(&mut self, object: H)
        ensures
            final(self)@ == old(self)@.push(object),
    {
        self.objects.push(object);
    }
}

impl<H: Hittable> Hittable for HittableList<H> {
    open spec fn hit_spec(&self, r: Ray, t_min: Scalar, t_max: Scalar) -> Option<HitRecord> {
        scan(self@, r, t_min, t_max)
    }

    /// The meeting that the scan keeps: see `scan`. Under the conditions of
    /// `lemma_scan_closest` it is the closest one, and of several equally
    /// close ones that of the surface added first.
    fn hit(&self, r: &Ray, t_min: Scalar, t_max: Scalar) -> (rec: Option<HitRecord>) {
        let mut best: Option<HitRecord> = None;
        let mut closest_so_far = t_max;
        let mut i: usize = 0;
        while i < self.objects.len()
            invariant
                0 <= i <= self.objects.len(),
                best == scan(self@.take(i as int), *r, t_min, t_max),
                closest_so_far == bound_after(best, t_max),
                best matches Some(h) ==> t_min.spec_lt(h.t) && h.t.spec_lt(t_max),
            decreases self.objects.len() - i,
        {
            proof {
                let upto = self@.take(i + 1);
                assert(upto.drop_last() =~= self@.take(i as int));
                assert(upto.last() == self@[i as int]);
            }
            match self.objects[i].hit(r, t_min, closest_so_far) {
                Some(h) => {
                    best = Some(h);
                    closest_so_far = h.t;
                },
                None => {},
            }
            i += 1;
        }
        proof {
            assert(self@.take(i as int) =~= self@);
        }
        best
    }
}

} // verus!
