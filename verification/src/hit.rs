//! Choosing the hit: which root of a shape counts, and which shape is nearest.
//!
//! A ray meets a shape at up to two parameters, its roots. A root qualifies when
//! it lies in the closed window from `t_min` to `t_max`. A shape is hit at the
//! least of its qualifying roots, and a world at the least over its shapes.

use vstd::prelude::*;
use crate::scalar::{is_less, is_nan, lemma_same_ordinal, less, ordinal, Scalar, ZERO};
use crate::vector::Vector;

verus! {

/// The two parameters at which a ray meets a shape.
#[derive(Clone, Copy, Debug)]
pub struct Roots {
    pub near: Scalar,
    pub far: Scalar,
}

/// A hit of a world: the index of the shape, and the parameter along the ray.
#[derive(Clone, Copy, Debug)]
pub struct Nearest {
    pub shape: usize,
    pub t: Scalar,
}

/// The side of a surface that a ray hits, and the normal there.
#[derive(Clone, Copy, Debug, PartialEq, Eq, Structural)]
pub struct Face {
    /// Whether the ray comes from the side that the outward normal points to.
    pub front_face: bool,
    /// The unit normal on the side that the ray comes from.
    pub normal: Vector,
}

/// Whether `t` is a root of the candidate that lies in the window.
pub open spec fn qualifies(c: Option<Roots>, t: Scalar, t_min: int, t_max: int) -> bool {
    &&& c matches Some(roots)
    &&& t == roots.near || t == roots.far
    &&& t_min <= t@ <= t_max
}

/// Whether `t` is a root of the candidate that lies in the window between the
/// doubles `t_min` and `t_max`.
pub open spec fn in_reach(c: Option<Roots>, t: Scalar, t_min: u64, t_max: u64) -> bool {
    &&& !is_nan(t_min)
    &&& !is_nan(t_max)
    &&& qualifies(c, t, ordinal(t_min), ordinal(t_max))
}

/// Whether `r` is the hit of the shape in the window: its least root there, or
/// none where the window holds no root of it.
pub open spec fn is_hit(c: Option<Roots>, t_min: u64, t_max: u64, r: Option<Scalar>) -> bool {
    match r {
        None => forall|t: Scalar| !#[trigger] in_reach(c, t, t_min, t_max),
        Some(t) => {
            &&& in_reach(c, t, t_min, t_max)
            &&& forall|u: Scalar| #[trigger] in_reach(c, u, t_min, t_max) ==> t@ <= u@
        },
    }
}

/// Whether `r` is the hit of the candidates in the window: a qualifying root
/// that no qualifying root of any candidate lies below, at the last candidate
/// that has it; or none where no root qualifies.
pub open spec fn is_nearest(
    candidates: Seq<Option<Roots>>,
    t_min: int,
    t_max: int,
    r: Option<Nearest>,
) -> bool {
    match r {
        None => forall|i: int, t: Scalar|
            0 <= i < candidates.len() ==> !#[trigger] qualifies(candidates[i], t, t_min, t_max),
        Some(hit) => {
            &&& hit.shape < candidates.len()
            &&& qualifies(candidates[hit.shape as int], hit.t, t_min, t_max)
            &&& forall|i: int, t: Scalar|
                0 <= i < candidates.len() && #[trigger] qualifies(candidates[i], t, t_min, t_max)
                    ==> hit.t@ <= t@
            &&& forall|i: int, t: Scalar|
                hit.shape < i < candidates.len() && #[trigger] qualifies(
                    candidates[i],
                    t,
                    t_min,
                    t_max,
                ) ==> hit.t@ < t@
        },
    }
}

/// The candidate of a shape whose quadratic has the given discriminant and
/// the given two solutions. A negative discriminant leaves no root, and a
/// solution that is a NaN is no root: where one of the two is a number, it
/// stands for both.
pub fn candidate(discriminant: u64, near: u64, far: u64) -> (c: Option<Roots>)
    ensures
        c is None <==> less(discriminant, ZERO) || (is_nan(near) && is_nan(far)),
        c matches Some(roots) ==> {
            &&& roots.near@ == (if is_nan(near) {
                ordinal(far)
            } else {
                ordinal(near)
            })
            &&& roots.far@ == (if is_nan(far) {
                ordinal(near)
            } else {
                ordinal(far)
            })
        },
{
    if is_less(discriminant, ZERO) {
        return None;
    }
    match (Scalar::from_bits(near), Scalar::from_bits(far)) {
        (Some(a), Some(b)) => Some(Roots { near: a, far: b }),
        (Some(a), None) => Some(Roots { near: a, far: a }),
        (None, Some(b)) => Some(Roots { near: b, far: b }),
        (None, None) => None,
    }
}

/// The face that a ray hits, from the dot product of the ray's direction and
/// the outward normal. The ray hits the front where the product is less than
/// 0. The normal of the face always opposes the ray: it is the outward normal
/// at the front, and the outward normal reversed at the back.
pub fn face(direction_dot_outward: u64, outward_normal: Vector) -> (f: Face)
    ensures
        f.front_face == less(direction_dot_outward, ZERO),
        f.normal == if f.front_face {
            outward_normal
        } else {
            outward_normal.opposite()
        },
{
    if is_less(direction_dot_outward, ZERO) {
        Face { front_face: true, normal: outward_normal }
    } else {
        Face { front_face: false, normal: outward_normal.reversed() }
    }
}

impl Roots {
    /// The least root in the window from `t_min` to `t_max`, if one lies in it.
    pub fn first_root(&self, t_min: Scalar, t_max: Scalar) -> (r: Option<Scalar>)
        ensures
            r is None <==> forall|t: Scalar| !#[trigger] qualifies(Some(*self), t, t_min@, t_max@),
            r matches Some(t) ==> {
                &&& qualifies(Some(*self), t, t_min@, t_max@)
                &&& forall|u: Scalar| #[trigger]
                    qualifies(Some(*self), u, t_min@, t_max@) ==> t@ <= u@
            },
    {
        let near_in: bool = self.near.within(t_min, t_max);
        let far_in: bool = self.far.within(t_min, t_max);
        if near_in && !(far_in && self.far.lt(self.near)) {
            assert(qualifies(Some(*self), self.near, t_min@, t_max@));
            Some(self.near)
        } else if far_in {
            assert(qualifies(Some(*self), self.far, t_min@, t_max@));
            Some(self.far)
        } else {
            None
        }
    }
}

/// The hit of one shape: the least root of its candidate in the window between
/// the doubles `t_min` and `t_max`. A shape without candidate is missed, and a
/// window with a NaN for a bound holds nothing.
pub fn hit(c: Option<Roots>, t_min: u64, t_max: u64) -> (r: Option<Scalar>)
    ensures
        is_hit(c, t_min, t_max, r),
{
    match (c, Scalar::from_bits(t_min), Scalar::from_bits(t_max)) {
        (Some(roots), Some(lo), Some(hi)) => roots.first_root(lo, hi),
        _ => None,
    }
}

/// The nearest hit among the candidates, one per shape and `None` for a shape
/// that the ray's line misses, in the window between the doubles `t_min` and
/// `t_max`. A window with a NaN for a bound holds nothing. The scan narrows the
/// window to the best parameter so far, so that each later shape is tested
/// against that alone.
pub fn nearest(candidates: &Vec<Option<Roots>>, t_min: u64, t_max: u64) -> (r: Option<Nearest>)
    ensures
        is_nan(t_min) || is_nan(t_max) ==> r is None,
        !is_nan(t_min) && !is_nan(t_max) ==> is_nearest(
            candidates@,
            ordinal(t_min),
            ordinal(t_max),
            r,
        ),
{
    let (lo, hi) = match (Scalar::from_bits(t_min), Scalar::from_bits(t_max)) {
        (Some(lo), Some(hi)) => (lo, hi),
        _ => {
            return None;
        },
    };
    let mut best: Option<Nearest> = None;
    let mut closest: Scalar = hi;
    let mut i: usize = 0;
    while i < candidates.len()
        invariant
            0 <= i <= candidates.len(),
            is_nearest(candidates@.take(i as int), lo@, hi@, best),
            best is None ==> closest == hi,
            best matches Some(hit) ==> closest == hit.t,
        decreases candidates.len() - i,
    {
        let ghost before = candidates@.take(i as int);
        let ghost after = candidates@.take(i + 1);
        let ghost held = best;
        let ghost window = closest;
        if let Some(roots) = candidates[i] {
            if let Some(t) = roots.first_root(lo, closest) {
                best = Some(Nearest { shape: i, t });
                closest = t;
                // No root of this shape or of an earlier one lies below `t`.
                assert forall|j: int, u: Scalar|
                    0 <= j < after.len() && #[trigger] qualifies(
                        after[j],
                        u,
                        lo@,
                        hi@,
                    ) implies t@ <= u@ by {
                    if j == i && u@ < t@ {
                        assert(qualifies(Some(roots), u, lo@, window@));
                    }
                }
            } else {
                // This shape has no root in the narrowed window: the hit stays.
                assert forall|j: int, u: Scalar|
                    0 <= j < after.len() && #[trigger] qualifies(
                        after[j],
                        u,
                        lo@,
                        hi@,
                    ) implies (match held {
                    Some(hit) => hit.t@ <= u@ && (hit.shape < j ==> hit.t@ < u@),
                    None => false,
                }) by {
                    if j == i {
                        assert(!qualifies(Some(roots), u, lo@, window@));
                    }
                }
            }
        } else {
            assert forall|j: int, u: Scalar|
                0 <= j < after.len() && #[trigger] qualifies(
                    after[j],
                    u,
                    lo@,
                    hi@,
                ) implies j < i && qualifies(before[j], u, lo@, hi@) by {}
        }
        i += 1;
    }
    assert(candidates@.take(i as int) == candidates@);
    best
}

/// A world has one hit: two results that both meet `is_nearest` are equal.
pub proof fn lemma_nearest_unique(
    candidates: Seq<Option<Roots>>,
    t_min: int,
    t_max: int,
    a: Option<Nearest>,
    b: Option<Nearest>,
)
    requires
        is_nearest(candidates, t_min, t_max, a),
        is_nearest(candidates, t_min, t_max, b),
    ensures
        a == b,
{
    if let (Some(x), Some(y)) = (a, b) {
        lemma_same_ordinal(x.t, y.t);
    }
}

/// A world of one shape is hit where the shape is.
pub proof fn lemma_world_of_one(c: Option<Roots>, t_min: u64, t_max: u64, alone: Option<Scalar>)
    requires
        !is_nan(t_min),
        !is_nan(t_max),
        is_hit(c, t_min, t_max, alone),
    ensures
        is_nearest(
            seq![c],
            ordinal(t_min),
            ordinal(t_max),
            match alone {
                Some(t) => Some(Nearest { shape: 0, t }),
                None => None,
            },
        ),
{
    let world = seq![c];
    match alone {
        Some(t) => {
            assert forall|i: int, u: Scalar|
                0 <= i < world.len() && #[trigger] qualifies(
                    world[i],
                    u,
                    ordinal(t_min),
                    ordinal(t_max),
                ) implies t@ <= u@ by {
                assert(in_reach(c, u, t_min, t_max));
            }
        },
        None => {
            assert forall|i: int, u: Scalar| 0 <= i < world.len() implies !#[trigger] qualifies(
                world[i],
                u,
                ordinal(t_min),
                ordinal(t_max),
            ) by {
                assert(!in_reach(c, u, t_min, t_max));
            }
        },
    }
}

/// A candidate of one sequence stands, at some index, in any rearrangement
/// of it.
proof fn lemma_candidate_moves(a: Seq<Option<Roots>>, b: Seq<Option<Roots>>, i: int) -> (j: int)
    requires
        a.to_multiset() == b.to_multiset(),
        0 <= i < a.len(),
    ensures
        0 <= j < b.len(),
        b[j] == a[i],
{
    a.to_multiset_ensures();
    b.to_multiset_ensures();
    assert(b.to_multiset().count(a[i]) > 0);
    choose|j: int| 0 <= j < b.len() && b[j] == a[i]
}

/// The hit's parameter does not depend on the order of the shapes: two worlds
/// that hold the same candidates, in any order, are hit at the same parameter,
/// or both missed.
pub proof fn lemma_nearest_order_independent(
    a: Seq<Option<Roots>>,
    b: Seq<Option<Roots>>,
    t_min: int,
    t_max: int,
    ra: Option<Nearest>,
    rb: Option<Nearest>,
)
    requires
        a.to_multiset() == b.to_multiset(),
        is_nearest(a, t_min, t_max, ra),
        is_nearest(b, t_min, t_max, rb),
    ensures
        ra is None <==> rb is None,
        ra matches Some(x) ==> rb matches Some(y) && x.t == y.t,
{
    if let Some(x) = ra {
        let j = lemma_candidate_moves(a, b, x.shape as int);
        assert(qualifies(b[j], x.t, t_min, t_max));
    }
    if let Some(y) = rb {
        let i = lemma_candidate_moves(b, a, y.shape as int);
        assert(qualifies(a[i], y.t, t_min, t_max));
    }
    if let (Some(x), Some(y)) = (ra, rb) {
        lemma_same_ordinal(x.t, y.t);
    }
}

} // verus!
