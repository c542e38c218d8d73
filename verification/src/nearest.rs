//! Which of the places where a ray meets the spheres of a scene is seen.

use crate::ray::Ray;
use crate::sphere::{lemma_hit_points_in_world, Color, Sphere};
use crate::vector::Point;
use vstd::prelude::*;

verus! {

/// A place where a ray meets a sphere: the point, the vector from the
/// sphere's centre to it, which is the surface normal without being
/// normalised, and the sphere's colour.
#[derive(Clone, Copy, Debug)]
pub struct Hit {
    pub point: Point,
    pub normal: Point,
    pub color: Color,
}

/// The squared distance between `p` and `origin`.
pub open spec fn distance_sq(p: Point, origin: Point) -> int {
    p@.minus(origin@).norm_sq()
}

/// What is recorded when `ray` meets `sphere` at `p`.
pub open spec fn hit_of(sphere: Sphere, p: Point) -> Hit {
    Hit { point: p, normal: p@.minus(sphere.center@).to_point(), color: sphere.color }
}

/// The hits of `ray` on one sphere, in the order of `Sphere::hit_points`.
pub open spec fn sphere_hits(sphere: Sphere, ray: Ray) -> Seq<Hit> {
    Seq::new(
        sphere.hit_points(ray).len(),
        |i: int| hit_of(sphere, sphere.hit_points(ray)[i]),
    )
}

/// The hits of `ray` on all the spheres, sphere after sphere.
pub open spec fn candidates(objects: Seq<Sphere>, ray: Ray) -> Seq<Hit>
    decreases objects.len(),
{
    if objects.len() == 0 {
        Seq::empty()
    } else {
        candidates(objects.drop_last(), ray) + sphere_hits(objects.last(), ray)
    }
}

/// `hits[i]` is as near to `origin` as any of the hits, and nearer than all
/// that come before it.
pub open spec fn is_nearest(hits: Seq<Hit>, origin: Point, i: int) -> bool {
    &&& 0 <= i < hits.len()
    &&& forall|j: int|
        0 <= j < hits.len() ==> distance_sq(hits[i].point, origin) <= distance_sq(
            #[trigger] hits[j].point,
            origin,
        )
    &&& forall|j: int|
        0 <= j < i ==> distance_sq(hits[i].point, origin) < distance_sq(
            #[trigger] hits[j].point,
            origin,
        )
}

/// The first of the hits that are nearest to `origin`; none where there is
/// no hit.
pub open spec fn nearest(hits: Seq<Hit>, origin: Point) -> Option<Hit> {
    if hits.len() == 0 {
        None
    } else {
        Some(hits[choose|i: int| is_nearest(hits, origin, i)])
    }
}

/// The better of the hit seen so far and a later one: the later one only
/// if it is strictly nearer.
pub open spec fn nearer(best: Option<Hit>, later: Hit, origin: Point) -> Option<Hit> {
    match best {
        None => Some(later),
        Some(b) => if distance_sq(later.point, origin) < distance_sq(b.point, origin) {
            Some(later)
        } else {
            Some(b)
        },
    }
}

/// The hit that is seen along `ray`: of all the places where it meets one of
/// the spheres, the nearest to its origin, and the first of these in the
/// order of the spheres where several are equally near.
pub fn nearest_hit(objects: &Vec<Sphere>, ray: &Ray) -> (best: Option<Hit>)
    requires
        forall|i: int| 0 <= i < objects.len() ==> (#[trigger] objects[i]).wf(),
        ray.wf(),
    ensures
        best == nearest(candidates(objects@, *ray), ray.origin),
{
    let mut best: Option<Hit> = None;
    let mut best_distance: i128 = 0;
    let mut i: usize = 0;
    while i < objects.len()
        invariant
            i <= objects.len(),
            forall|k: int| 0 <= k < objects.len() ==> (#[trigger] objects[k]).wf(),
            ray.wf(),
            best == nearest(candidates(objects@.take(i as int), *ray), ray.origin),
            best matches Some(b) ==> best_distance == distance_sq(b.point, ray.origin),
        decreases objects.len() - i,
    {
        let sphere: &Sphere = &objects[i];
        let hits: Vec<Point> = sphere.itsct(ray);
        let ghost before = candidates(objects@.take(i as int), *ray);
        let ghost found = sphere_hits(*sphere, *ray);
        proof {
            lemma_hit_points_in_world(*sphere, *ray);
            assert(before + found.take(0) =~= before);
        }
        let mut j: usize = 0;
        while j < hits.len()
            invariant
                j <= hits.len(),
                sphere.wf(),
                ray.wf(),
                hits@ == sphere.hit_points(*ray),
                found == sphere_hits(*sphere, *ray),
                forall|k: int| 0 <= k < hits.len() ==> (#[trigger] hits@[k]).in_world(),
                best == nearest(before + found.take(j as int), ray.origin),
                best matches Some(b) ==> best_distance == distance_sq(b.point, ray.origin),
            decreases hits.len() - j,
        {
            let p: Point = hits[j];
            assert(hits@[j as int].in_world());
            let distance: i128 = p.sub(&ray.origin).length_squared();
            let hit = Hit { point: p, normal: p.sub(&sphere.center), color: sphere.color };
            proof {
                assert(hit == found[j as int]);
                lemma_nearest_push(before + found.take(j as int), hit, ray.origin);
                assert((before + found.take(j as int)).push(hit) =~= before + found.take(
                    j as int + 1,
                ));
            }
            let closer: bool = match best {
                None => true,
                Some(_) => distance < best_distance,
            };
            if closer {
                best = Some(hit);
                best_distance = distance;
            }
            j += 1;
        }
        proof {
            assert(found.take(hits.len() as int) =~= found);
            assert(objects@.take(i as int + 1).drop_last() =~= objects@.take(i as int));
            assert(objects@.take(i as int + 1).last() == objects@[i as int]);
        }
        i += 1;
    }
    proof {
        assert(objects@.take(objects.len() as int) =~= objects@);
    }
    best
}

/// `hit` is what is recorded for one of the places where `ray` meets
/// `sphere`.
pub open spec fn is_hit_on(hit: Hit, sphere: Sphere, ray: Ray) -> bool {
    exists|m: int|
        0 <= m < sphere.hit_points(ray).len() && hit == hit_of(
            sphere,
            #[trigger] sphere.hit_points(ray)[m],
        )
}

/// `hit` is what is recorded for one of the places where `ray` meets one of
/// the spheres.
pub open spec fn is_hit_among(hit: Hit, objects: Seq<Sphere>, ray: Ray) -> bool {
    exists|i: int| 0 <= i < objects.len() && is_hit_on(hit, #[trigger] objects[i], ray)
}

/// The candidates are the hits on the spheres, all of them and no others.
pub proof fn lemma_candidates_are_the_hits(objects: Seq<Sphere>, ray: Ray)
    ensures
        forall|hit: Hit| #[trigger]
            candidates(objects, ray).contains(hit) <==> is_hit_among(hit, objects, ray),
    decreases objects.len(),
{
    let all = candidates(objects, ray);
    if objects.len() == 0 {
        assert forall|hit: Hit| #[trigger] all.contains(hit) <==> is_hit_among(
            hit,
            objects,
            ray,
        ) by {}
    } else {
        let rest = objects.drop_last();
        let last = objects.last();
        let front = candidates(rest, ray);
        let back = sphere_hits(last, ray);
        lemma_candidates_are_the_hits(rest, ray);
        assert forall|hit: Hit| #[trigger] all.contains(hit) <==> is_hit_among(
            hit,
            objects,
            ray,
        ) by {
            if all.contains(hit) {
                let j = choose|j: int| 0 <= j < all.len() && all[j] == hit;
                if j < front.len() {
                    assert(front[j] == hit);
                    assert(front.contains(hit));
                    let i = choose|i: int|
                        0 <= i < rest.len() && is_hit_on(hit, #[trigger] rest[i], ray);
                    assert(objects[i] == rest[i]);
                } else {
                    let m = j - front.len();
                    assert(back[m] == hit);
                    assert(hit == hit_of(last, last.hit_points(ray)[m]));
                    assert(is_hit_on(hit, objects[objects.len() - 1], ray));
                }
            }
            if is_hit_among(hit, objects, ray) {
                let i = choose|i: int|
                    0 <= i < objects.len() && is_hit_on(hit, #[trigger] objects[i], ray);
                if i < rest.len() {
                    assert(rest[i] == objects[i]);
                    assert(is_hit_among(hit, rest, ray));
                    assert(front.contains(hit));
                    let j = choose|j: int| 0 <= j < front.len() && front[j] == hit;
                    assert(all[j] == hit);
                } else {
                    let m = choose|m: int|
                        0 <= m < last.hit_points(ray).len() && hit == hit_of(
                            last,
                            #[trigger] last.hit_points(ray)[m],
                        );
                    assert(back[m] == hit);
                    assert(all[front.len() + m] == hit);
                }
            }
        }
    }
}

/// What is seen along a ray is a hit on one of the spheres, and no hit on
/// any sphere is nearer to the ray's origin. Nothing is seen only where the
/// ray meets no sphere.
pub proof fn lemma_seen_is_nearest(objects: Seq<Sphere>, ray: Ray)
    ensures
        match nearest(candidates(objects, ray), ray.origin) {
            Some(seen) => {
                &&& is_hit_among(seen, objects, ray)
                &&& forall|hit: Hit| #[trigger]
                    is_hit_among(hit, objects, ray) ==> distance_sq(seen.point, ray.origin)
                        <= distance_sq(hit.point, ray.origin)
            },
            None => forall|hit: Hit| !#[trigger] is_hit_among(hit, objects, ray),
        },
{
    let all = candidates(objects, ray);
    lemma_candidates_are_the_hits(objects, ray);
    if all.len() > 0 {
        lemma_nearest_exists(all, ray.origin);
        let k = choose|i: int| is_nearest(all, ray.origin, i);
        assert(all.contains(all[k]));
        assert forall|hit: Hit| #[trigger] is_hit_among(hit, objects, ray) implies distance_sq(
            all[k].point,
            ray.origin,
        ) <= distance_sq(hit.point, ray.origin) by {
            assert(all.contains(hit));
            let j = choose|j: int| 0 <= j < all.len() && all[j] == hit;
            assert(distance_sq(all[k].point, ray.origin) <= distance_sq(all[j].point, ray.origin));
        }
    } else {
        assert forall|hit: Hit| !#[trigger] is_hit_among(hit, objects, ray) by {
            if is_hit_among(hit, objects, ray) {
                assert(all.contains(hit));
            }
        }
    }
}

/// Where one sphere has a hit that is strictly nearer to the ray's origin
/// than every hit on every other sphere, what is seen is a hit on that
/// sphere, and has its colour.
pub proof fn lemma_nearest_sphere_is_seen(objects: Seq<Sphere>, ray: Ray, k: int, near: Hit)
    requires
        0 <= k < objects.len(),
        is_hit_on(near, objects[k], ray),
        forall|i: int, hit: Hit|
            0 <= i < objects.len() && i != k && #[trigger] is_hit_on(hit, objects[i], ray)
                ==> distance_sq(near.point, ray.origin) < distance_sq(hit.point, ray.origin),
    ensures
        match nearest(candidates(objects, ray), ray.origin) {
            Some(seen) => is_hit_on(seen, objects[k], ray) && seen.color == objects[k].color,
            None => false,
        },
{
    lemma_seen_is_nearest(objects, ray);
    assert(is_hit_among(near, objects, ray));
    let seen = nearest(candidates(objects, ray), ray.origin).unwrap();
    let i = choose|i: int| 0 <= i < objects.len() && is_hit_on(seen, #[trigger] objects[i], ray);
    if i != k {
        assert(distance_sq(near.point, ray.origin) < distance_sq(seen.point, ray.origin));
        assert(distance_sq(seen.point, ray.origin) <= distance_sq(near.point, ray.origin));
    }
}

/// A ray that meets none of the spheres has no candidates.
pub proof fn lemma_no_hit_no_candidates(objects: Seq<Sphere>, ray: Ray)
    requires
        forall|i: int|
            0 <= i < objects.len() ==> (#[trigger] objects[i]).hit_points(ray).len() == 0,
    ensures
        candidates(objects, ray).len() == 0,
    decreases objects.len(),
{
    if objects.len() > 0 {
        let rest = objects.drop_last();
        assert forall|i: int| 0 <= i < rest.len() implies (#[trigger] rest[i]).hit_points(
            ray,
        ).len() == 0 by {
            assert(rest[i] == objects[i]);
        }
        lemma_no_hit_no_candidates(rest, ray);
        assert(objects.last() == objects[objects.len() - 1]);
    }
}

/// Every hit among the candidates lies inside the world.
pub proof fn lemma_candidates_in_world(objects: Seq<Sphere>, ray: Ray)
    ensures
        forall|i: int|
            0 <= i < candidates(objects, ray).len() ==> (#[trigger] candidates(
                objects,
                ray,
            )[i]).point.in_world(),
    decreases objects.len(),
{
    if objects.len() > 0 {
        lemma_candidates_in_world(objects.drop_last(), ray);
        lemma_hit_points_in_world(objects.last(), ray);
        let front = candidates(objects.drop_last(), ray);
        let back = sphere_hits(objects.last(), ray);
        assert forall|i: int| 0 <= i < candidates(objects, ray).len() implies (
        #[trigger] candidates(objects, ray)[i]).point.in_world() by {
            if i < front.len() {
                assert(candidates(objects, ray)[i] == front[i]);
            } else {
                assert(candidates(objects, ray)[i] == back[i - front.len()]);
                assert(objects.last().hit_points(ray)[i - front.len()].in_world());
            }
        }
    }
}

/// At most one position is the nearest.
pub proof fn lemma_nearest_unique(hits: Seq<Hit>, origin: Point, i: int, j: int)
    requires
        is_nearest(hits, origin, i),
        is_nearest(hits, origin, j),
    ensures
        i == j,
{
    if i < j {
        assert(distance_sq(hits[j].point, origin) < distance_sq(hits[i].point, origin));
        assert(distance_sq(hits[i].point, origin) <= distance_sq(hits[j].point, origin));
    } else if j < i {
        assert(distance_sq(hits[i].point, origin) < distance_sq(hits[j].point, origin));
        assert(distance_sq(hits[j].point, origin) <= distance_sq(hits[i].point, origin));
    }
}

/// Where there is a hit, one of them is the nearest.
pub proof fn lemma_nearest_exists(hits: Seq<Hit>, origin: Point)
    requires
        hits.len() > 0,
    ensures
        is_nearest(hits, origin, choose|i: int| is_nearest(hits, origin, i)),
    decreases hits.len(),
{
    let n = hits.len() as int;
    if n == 1 {
        assert(is_nearest(hits, origin, 0));
    } else {
        let front = hits.drop_last();
        lemma_nearest_exists(front, origin);
        let k = choose|i: int| is_nearest(front, origin, i);
        assert(forall|j: int| 0 <= j < n - 1 ==> front[j] == hits[j]);
        if distance_sq(hits[n - 1].point, origin) < distance_sq(hits[k].point, origin) {
            assert forall|j: int| 0 <= j < n implies distance_sq(hits[n - 1].point, origin)
                <= distance_sq(#[trigger] hits[j].point, origin) by {
                if j < n - 1 {
                    assert(distance_sq(front[k].point, origin) <= distance_sq(
                        front[j].point,
                        origin,
                    ));
                }
            }
            assert forall|j: int| 0 <= j < n - 1 implies distance_sq(hits[n - 1].point, origin)
                < distance_sq(#[trigger] hits[j].point, origin) by {
                assert(distance_sq(front[k].point, origin) <= distance_sq(
                    front[j].point,
                    origin,
                ));
            }
            assert(is_nearest(hits, origin, n - 1));
        } else {
            assert forall|j: int| 0 <= j < n implies distance_sq(hits[k].point, origin)
                <= distance_sq(#[trigger] hits[j].point, origin) by {
                if j < n - 1 {
                    assert(distance_sq(front[k].point, origin) <= distance_sq(
                        front[j].point,
                        origin,
                    ));
                }
            }
            assert forall|j: int| 0 <= j < k implies distance_sq(hits[k].point, origin)
                < distance_sq(#[trigger] hits[j].point, origin) by {
                assert(distance_sq(front[k].point, origin) < distance_sq(
                    front[j].point,
                    origin,
                ));
            }
            assert(is_nearest(hits, origin, k));
        }
    }
}

/// Whoever exhibits the nearest position has found `nearest`.
pub proof fn lemma_nearest_is(hits: Seq<Hit>, origin: Point, i: int)
    requires
        is_nearest(hits, origin, i),
    ensures
        nearest(hits, origin) == Some(hits[i]),
{
    lemma_nearest_unique(hits, origin, i, choose|k: int| is_nearest(hits, origin, k));
}

/// Scanning the hits one by one and keeping the strictly nearer finds
/// `nearest`.
pub proof fn lemma_nearest_push(hits: Seq<Hit>, later: Hit, origin: Point)
    ensures
        nearest(hits.push(later), origin) == nearer(nearest(hits, origin), later, origin),
{
    let all = hits.push(later);
    let n = hits.len() as int;
    assert(all[n] == later);
    assert(forall|j: int| 0 <= j < n ==> all[j] == hits[j]);
    if n == 0 {
        assert(is_nearest(all, origin, 0));
        lemma_nearest_is(all, origin, 0);
    } else {
        lemma_nearest_exists(hits, origin);
        let k = choose|i: int| is_nearest(hits, origin, i);
        if distance_sq(later.point, origin) < distance_sq(hits[k].point, origin) {
            assert forall|j: int| 0 <= j < n + 1 implies distance_sq(all[n].point, origin)
                <= distance_sq(#[trigger] all[j].point, origin) by {
                if j < n {
                    assert(distance_sq(hits[k].point, origin) <= distance_sq(
                        hits[j].point,
                        origin,
                    ));
                }
            }
            assert forall|j: int| 0 <= j < n implies distance_sq(all[n].point, origin)
                < distance_sq(#[trigger] all[j].point, origin) by {
                assert(distance_sq(hits[k].point, origin) <= distance_sq(
                    hits[j].point,
                    origin,
                ));
            }
            lemma_nearest_is(all, origin, n);
        } else {
            assert forall|j: int| 0 <= j < n + 1 implies distance_sq(all[k].point, origin)
                <= distance_sq(#[trigger] all[j].point, origin) by {
                if j < n {
                    assert(distance_sq(hits[k].point, origin) <= distance_sq(
                        hits[j].point,
                        origin,
                    ));
                }
            }
            assert forall|j: int| 0 <= j < k implies distance_sq(all[k].point, origin)
                < distance_sq(#[trigger] all[j].point, origin) by {
                assert(distance_sq(hits[k].point, origin) < distance_sq(hits[j].point, origin));
            }
            lemma_nearest_is(all, origin, k);
        }
    }
}

} // verus!
