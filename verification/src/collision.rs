//! Shapes, axis-aligned bounds, and the exact narrow-phase test.

use vstd::prelude::*;
use crate::fix::{fix_ok, sat, sat_i128, v2_ok, Vec2, FIX_BOUND};

verus! {

/// A collider shape, in local coordinates centred on the owning entity's
/// position. The set of kinds is closed; every dispatch over it matches
/// exhaustively, so adding a kind forces each site to be revisited.
#[derive(Clone, Copy, Debug)]
pub enum Shape {
    Circle { radius: i64 },
}

/// The shape's dimensions are representable and non-negative.
pub open spec fn shape_ok(s: Shape) -> bool {
    match s {
        Shape::Circle { radius } => 0 <= radius && fix_ok(radius as int),
    }
}

/// An axis-aligned bounding box.
#[derive(Clone, Copy, Debug)]
pub struct Aabb {
    pub min: Vec2,
    pub max: Vec2,
}

/// Two boxes overlap (touching counts as overlapping).
pub open spec fn aabb_overlaps(a: Aabb, b: Aabb) -> bool {
    &&& a.min.x <= b.max.x
    &&& b.min.x <= a.max.x
    &&& a.min.y <= b.max.y
    &&& b.min.y <= a.max.y
}

/// `outer` contains `inner`.
pub open spec fn aabb_contains(outer: Aabb, inner: Aabb) -> bool {
    &&& outer.min.x <= inner.min.x
    &&& outer.min.y <= inner.min.y
    &&& inner.max.x <= outer.max.x
    &&& inner.max.y <= outer.max.y
}

/// Both corners of the box are representable.
pub open spec fn aabb_ok(b: Aabb) -> bool {
    v2_ok(b.min) && v2_ok(b.max)
}

/// The smallest box containing both arguments.
pub open spec fn aabb_merge(a: Aabb, b: Aabb) -> Aabb {
    Aabb {
        min: Vec2 {
            x: if a.min.x <= b.min.x {
                a.min.x
            } else {
                b.min.x
            },
            y: if a.min.y <= b.min.y {
                a.min.y
            } else {
                b.min.y
            },
        },
        max: Vec2 {
            x: if a.max.x >= b.max.x {
                a.max.x
            } else {
                b.max.x
            },
            y: if a.max.y >= b.max.y {
                a.max.y
            } else {
                b.max.y
            },
        },
    }
}

/// Compute the smallest box containing both arguments.
pub fn merge(a: &Aabb, b: &Aabb) -> (r: Aabb)
    ensures
        r == aabb_merge(*a, *b),
{
    Aabb {
        min: Vec2 {
            x: if a.min.x <= b.min.x {
                a.min.x
            } else {
                b.min.x
            },
            y: if a.min.y <= b.min.y {
                a.min.y
            } else {
                b.min.y
            },
        },
        max: Vec2 {
            x: if a.max.x >= b.max.x {
                a.max.x
            } else {
                b.max.x
            },
            y: if a.max.y >= b.max.y {
                a.max.y
            } else {
                b.max.y
            },
        },
    }
}

/// Test whether two boxes overlap.
pub fn overlaps(a: &Aabb, b: &Aabb) -> (r: bool)
    ensures
        r == aabb_overlaps(*a, *b),
{
    a.min.x <= b.max.x && b.min.x <= a.max.x && a.min.y <= b.max.y && b.min.y <= a.max.y
}

/// The merge contains both of its arguments, is contained in any common
/// container, and keeps both corners representable.
pub proof fn lemma_merge_properties(a: Aabb, b: Aabb)
    ensures
        aabb_contains(aabb_merge(a, b), a),
        aabb_contains(aabb_merge(a, b), b),
        forall|o: Aabb|
            aabb_contains(o, a) && aabb_contains(o, b) ==> aabb_contains(
                o,
                #[trigger] aabb_merge(a, b),
            ),
        aabb_ok(a) && aabb_ok(b) ==> aabb_ok(aabb_merge(a, b)),
{
}

/// Containment is transitive.
pub proof fn lemma_contains_transitive(a: Aabb, b: Aabb, c: Aabb)
    requires
        aabb_contains(a, b),
        aabb_contains(b, c),
    ensures
        aabb_contains(a, c),
{
}

/// Containment turns an overlap with the inner box into an overlap with the
/// outer box.
pub proof fn lemma_overlap_via_containment(q: Aabb, outer: Aabb, inner: Aabb)
    requires
        aabb_contains(outer, inner),
        aabb_overlaps(q, inner),
    ensures
        aabb_overlaps(q, outer),
{
}

/// The world-space bound of a shape placed at `pos`, expanded by `margin` on
/// every side, with each edge saturated into the representable range.
pub open spec fn bound_at(s: Shape, pos: Vec2, margin: int) -> Aabb {
    match s {
        Shape::Circle { radius } => Aabb {
            min: Vec2 {
                x: sat(pos.x - radius - margin) as i64,
                y: sat(pos.y - radius - margin) as i64,
            },
            max: Vec2 {
                x: sat(pos.x + radius + margin) as i64,
                y: sat(pos.y + radius + margin) as i64,
            },
        },
    }
}

/// Compute the world-space bound of a shape at `pos`, expanded by `margin`.
pub fn compute_bound(s: &Shape, pos: Vec2, margin: i64) -> (b: Aabb)
    requires
        shape_ok(*s),
        v2_ok(pos),
        0 <= margin <= FIX_BOUND as int,
    ensures
        b == bound_at(*s, pos, margin as int),
{
    match s {
        Shape::Circle { radius } => {
            let r_m: i128 = *radius as i128 + margin as i128;
            Aabb {
                min: Vec2 {
                    x: sat_i128(pos.x as i128 - r_m),
                    y: sat_i128(pos.y as i128 - r_m),
                },
                max: Vec2 {
                    x: sat_i128(pos.x as i128 + r_m),
                    y: sat_i128(pos.y as i128 + r_m),
                },
            }
        }
    }
}

/// Two circles intersect exactly when the squared distance between their
/// centres is at most the square of the sum of their radii; touching counts
/// as intersecting.
pub open spec fn circles_intersect(pa: Vec2, ra: int, pb: Vec2, rb: int) -> bool {
    (pa.x - pb.x) * (pa.x - pb.x) + (pa.y - pb.y) * (pa.y - pb.y) <= (ra + rb) * (ra + rb)
}

/// Exact geometric intersection of two shapes at their world positions.
pub open spec fn shapes_intersect(sa: Shape, pa: Vec2, sb: Shape, pb: Vec2) -> bool {
    match (sa, sb) {
        (Shape::Circle { radius: ra }, Shape::Circle { radius: rb }) => circles_intersect(
            pa,
            ra as int,
            pb,
            rb as int,
        ),
    }
}

/// Narrow-phase test: does shape `a` at `pos_a` intersect shape `b` at
/// `pos_b`? Every supported pairing is dispatched exhaustively.
pub fn test(shape_a: &Shape, pos_a: Vec2, shape_b: &Shape, pos_b: Vec2) -> (r: bool)
    requires
        shape_ok(*shape_a),
        shape_ok(*shape_b),
        v2_ok(pos_a),
        v2_ok(pos_b),
    ensures
        r == shapes_intersect(*shape_a, pos_a, *shape_b, pos_b),
{
    match (shape_a, shape_b) {
        (Shape::Circle { radius: ra }, Shape::Circle { radius: rb }) => {
            let dx: i128 = pos_a.x as i128 - pos_b.x as i128;
            let dy: i128 = pos_a.y as i128 - pos_b.y as i128;
            let rsum: i128 = *ra as i128 + *rb as i128;
            proof {
                assert(0 <= dx * dx <= 0x400_0000_0000 * 0x400_0000_0000 && 0 <= dy * dy
                    <= 0x400_0000_0000 * 0x400_0000_0000 && 0 <= rsum * rsum <= 0x400_0000_0000
                    * 0x400_0000_0000) by (nonlinear_arith)
                    requires
                        -0x400_0000_0000 <= dx as int <= 0x400_0000_0000,
                        -0x400_0000_0000 <= dy as int <= 0x400_0000_0000,
                        -0x400_0000_0000 <= rsum as int <= 0x400_0000_0000,
                ;
            }
            dx * dx + dy * dy <= rsum * rsum
        }
    }
}

/// If two circles intersect, their margin-expanded bounds overlap: the
/// broad phase can never prune a truly intersecting pair.
pub proof fn lemma_intersect_implies_bounds_overlap(
    sa: Shape,
    pa: Vec2,
    sb: Shape,
    pb: Vec2,
    ma: int,
    mb: int,
)
    requires
        shape_ok(sa),
        shape_ok(sb),
        shapes_intersect(sa, pa, sb, pb),
        ma >= 0,
        mb >= 0,
    ensures
        aabb_overlaps(bound_at(sa, pa, ma), bound_at(sb, pb, mb)),
{
    let ra = sa->radius as int;
    let rb = sb->radius as int;
    assert(pa.x - ra <= pb.x + rb && pb.x - rb <= pa.x + ra && pa.y - ra <= pb.y + rb && pb.y - rb
        <= pa.y + ra) by (nonlinear_arith)
        requires
            (pa.x - pb.x) * (pa.x - pb.x) + (pa.y - pb.y) * (pa.y - pb.y) <= (ra + rb) * (ra + rb),
            ra >= 0,
            rb >= 0,
    ;
}

} // verus!
