//! Boundary containment by velocity reflection.

use vstd::prelude::*;
use crate::fix::{
    fix_ok, lemma_mul_bounds, mag_sq, sat, sat_i128, tdiv, tdiv_i128, v2_dot, v2_dot_exec, v2_ok,
    Vec2, FIX_BOUND,
};
use crate::physics::VelocityComponent;
use crate::store::{dup_rec, rec_equiv, EntityRec, World};
use vstd::arithmetic::div_mod::lemma_div_multiples_vanish;

verus! {

/// A radius around the origin; entities at or beyond it that are moving
/// outward have their outward velocity component reflected inward.
#[derive(Clone, Copy, Debug)]
pub struct ReflectWithin(pub i64);

/// The radius is non-negative and representable.
pub open spec fn reflect_within_ok(r: ReflectWithin) -> bool {
    0 <= r.0 && fix_ok(r.0 as int)
}

/// The velocity with its radial component (along `p`) subtracted twice:
/// `v - 2 * (v . p) * p / (p . p)`, component-wise, rounded toward zero and
/// saturated. In exact arithmetic, subtracting the radial component once
/// would only leave the motion tangential, while subtracting it twice fully
/// reverses it; the rounding can leave a residue of a few milli-units.
pub open spec fn reflected_vel(v: Vec2, p: Vec2) -> Vec2 {
    Vec2 {
        x: sat(v.x - tdiv(2 * v2_dot(v, p) * p.x, mag_sq(p))) as i64,
        y: sat(v.y - tdiv(2 * v2_dot(v, p) * p.y, mag_sq(p))) as i64,
    }
}

/// Whether the record is at or beyond its reflection radius and moving
/// outward.
pub open spec fn reflect_applies(o: EntityRec) -> bool {
    &&& o.pos is Some
    &&& o.vel is Some
    &&& o.reflect_within is Some
    &&& mag_sq((o.pos->0).0) >= (o.reflect_within->0).0 * (o.reflect_within->0).0
    &&& v2_dot((o.vel->0).0, (o.pos->0).0) > 0
}

/// What boundary reflection does to one record: an entity with Position,
/// Velocity and ReflectWithin that is at or beyond the radius and moving
/// outward has its velocity reflected; everything else is untouched.
pub open spec fn reflect_rec(o: EntityRec) -> EntityRec {
    if reflect_applies(o) {
        EntityRec {
            id: o.id,
            pos: o.pos,
            interpolate: o.interpolate,
            vel: Option::Some(VelocityComponent(reflected_vel((o.vel->0).0, (o.pos->0).0))),
            force: o.force,
            mass: o.mass,
            hitbox: o.hitbox,
            hurtbox: o.hurtbox,
            health: o.health,
            lifespan: o.lifespan,
            remove_on_hit: o.remove_on_hit,
            player: o.player,
            reflect_within: o.reflect_within,
        }
    } else {
        o
    }
}

/// Bound the dot product of two representable vectors.
proof fn lemma_dot_bound(a: Vec2, b: Vec2)
    requires
        v2_ok(a),
        v2_ok(b),
    ensures
        -(2 * (FIX_BOUND as int * FIX_BOUND as int)) <= v2_dot(a, b) <= 2 * (FIX_BOUND as int
            * FIX_BOUND as int),
{
    lemma_mul_bounds(a.x as int, FIX_BOUND as int, b.x as int, FIX_BOUND as int);
    lemma_mul_bounds(a.y as int, FIX_BOUND as int, b.y as int, FIX_BOUND as int);
}

/// Compute the reflected velocity.
fn reflect_velocity(v: Vec2, p: Vec2) -> (r: Vec2)
    requires
        v2_ok(v),
        v2_ok(p),
        v2_dot(v, p) > 0,
    ensures
        r == reflected_vel(v, p),
        v2_ok(r),
{
    let d: i128 = v2_dot_exec(v, p);
    let m2: i128 = v2_dot_exec(p, p);
    proof {
        lemma_dot_bound(v, p);
        lemma_dot_bound(p, p);
        assert(m2 >= 1) by (nonlinear_arith)
            requires
                m2 as int == p.x * p.x + p.y * p.y,
                v.x * p.x + v.y * p.y > 0,
        ;
        lemma_mul_bounds(
            2 * d as int,
            4 * (FIX_BOUND as int * FIX_BOUND as int),
            p.x as int,
            FIX_BOUND as int,
        );
        lemma_mul_bounds(
            2 * d as int,
            4 * (FIX_BOUND as int * FIX_BOUND as int),
            p.y as int,
            FIX_BOUND as int,
        );
    }
    let qx: i128 = tdiv_i128(2 * d * p.x as i128, m2);
    let qy: i128 = tdiv_i128(2 * d * p.y as i128, m2);
    proof {
        crate::fix::lemma_tdiv_in_range(2 * d as int * p.x as int, m2 as int);
        crate::fix::lemma_tdiv_in_range(2 * d as int * p.y as int, m2 as int);
    }
    Vec2 { x: sat_i128(v.x as i128 - qx), y: sat_i128(v.y as i128 - qy) }
}

/// The reflection pass as a relation between the world before and after:
/// every record is rewritten by `reflect_rec`.
pub open spec fn reflect_rel(w0: Seq<EntityRec>, w1: Seq<EntityRec>) -> bool {
    &&& w1.len() == w0.len()
    &&& forall|i: int| 0 <= i < w0.len() ==> rec_equiv(reflect_rec(w0[i]), #[trigger] w1[i])
}

/// Boundary reflection: for every entity with Position, Velocity and
/// ReflectWithin, reflect the outward radial velocity component at or
/// beyond the radius. Entities moving inward or tangentially, and entities
/// inside the radius, are unaffected.
pub fn reflect_within(world: &mut World)
    requires
        old(world).wf(),
    ensures
        final(world).wf(),
        final(world).next_id() == old(world).next_id(),
        reflect_rel(old(world).view(), final(world).view()),
{
    let n = world.len();
    let mut i: usize = 0;
    while i < n
        invariant
            world.wf(),
            n == old(world).view().len(),
            world.view().len() == n,
            world.next_id() == old(world).next_id(),
            i <= n,
            forall|j: int|
                0 <= j < i ==> rec_equiv(
                    reflect_rec(old(world).view()[j]),
                    #[trigger] world.view()[j],
                ),
            forall|j: int| i <= j < n ==> #[trigger] world.view()[j] == old(world).view()[j],
        decreases n - i,
    {
        let applies: bool = {
            let r = world.get(i);
            if r.pos.is_some() && r.vel.is_some() && r.reflect_within.is_some() {
                let p: Vec2 = match &r.pos {
                    Option::Some(c) => c.0,
                    Option::None => vstd::pervasive::unreached(),
                };
                let v: Vec2 = match &r.vel {
                    Option::Some(c) => c.0,
                    Option::None => vstd::pervasive::unreached(),
                };
                let rad: i64 = match &r.reflect_within {
                    Option::Some(c) => c.0,
                    Option::None => vstd::pervasive::unreached(),
                };
                let m2: i128 = v2_dot_exec(p, p);
                let d: i128 = v2_dot_exec(v, p);
                proof {
                    crate::fix::lemma_prod_bound(rad as int, rad as int);
                }
                m2 >= rad as i128 * rad as i128 && d > 0
            } else {
                false
            }
        };
        if applies {
            let mut rec = dup_rec(world.get(i));
            let p: Vec2 = match rec.pos {
                Option::Some(c) => c.0,
                Option::None => vstd::pervasive::unreached(),
            };
            let v: Vec2 = match rec.vel {
                Option::Some(c) => c.0,
                Option::None => vstd::pervasive::unreached(),
            };
            rec.vel = Option::Some(VelocityComponent(reflect_velocity(v, p)));
            world.set(i, rec);
        }
        i = i + 1;
    }
}

/// An entity exactly at the boundary (or beyond) moving directly outward
/// has its velocity exactly negated: when `v` is parallel to `p` and points
/// outward, the reflected velocity is `-v`. Entities moving tangentially or
/// inward are unaffected, by definition of `reflect_rec`.
pub proof fn lemma_reflect_outward_negates(v: Vec2, p: Vec2)
    requires
        v2_ok(v),
        v2_ok(p),
        v.x * p.y == v.y * p.x,
        v2_dot(v, p) > 0,
    ensures
        reflected_vel(v, p) == (Vec2 { x: -v.x as i64, y: -v.y as i64 }),
{
    let d = v2_dot(v, p);
    let m2 = mag_sq(p);
    assert(m2 >= 1 && d * p.x == v.x * m2 && d * p.y == v.y * m2) by (nonlinear_arith)
        requires
            d == v.x * p.x + v.y * p.y,
            m2 == p.x * p.x + p.y * p.y,
            v.x * p.y == v.y * p.x,
            d > 0,
    ;
    assert(2 * d * p.x == (2 * v.x) * m2) by (nonlinear_arith)
        requires
            d * p.x == v.x * m2,
    ;
    assert(2 * d * p.y == (2 * v.y) * m2) by (nonlinear_arith)
        requires
            d * p.y == v.y * m2,
    ;
    lemma_tdiv_exact(2 * v.x, m2);
    lemma_tdiv_exact(2 * v.y, m2);
    assert(sat(v.x - 2 * v.x) == -v.x);
    assert(sat(v.y - 2 * v.y) == -v.y);
}

/// Truncating division is exact on multiples of the divisor.
proof fn lemma_tdiv_exact(k: int, m: int)
    requires
        m >= 1,
    ensures
        tdiv(k * m, m) == k,
{
    if k >= 0 {
        lemma_div_multiples_vanish(k, m);
        assert(k * m >= 0 && k * m == m * k) by (nonlinear_arith)
            requires
                k >= 0,
                m >= 1,
        ;
    } else {
        lemma_div_multiples_vanish(-k, m);
        assert(k * m < 0 && -(k * m) == m * (-k)) by (nonlinear_arith)
            requires
                k < 0,
                m >= 1,
        ;
    }
}

} // verus!
