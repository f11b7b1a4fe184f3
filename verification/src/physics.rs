//! Force, mass, and velocity components, and the integration pass.

use vstd::prelude::*;
use crate::fix::{
    fix_ok, lemma_mul_bounds, sat, sat_i128, sv2_add, sv2_scale_div, tdiv, tdiv_i128, v2_add,
    v2_ok, v2_scale_div, Vec2, FIX_BOUND,
};
use crate::interpolate::InterpolateComponent;
use crate::position::PositionComponent;
use crate::resource::Time;
use crate::store::{dup_rec, rec_equiv, rec_ok, EntityRec, World};

verus! {

/// Transient per-tick force sum, zeroed after being applied to velocity.
#[derive(Clone, Copy, Debug)]
pub struct ForceComponent(pub Vec2);

impl Default for ForceComponent {
    fn default() -> (f: ForceComponent)
        ensures
            f.0.x == 0 && f.0.y == 0,
    {
        ForceComponent(Vec2 { x: 0, y: 0 })
    }
}

/// The stored force is representable.
pub open spec fn force_ok(f: ForceComponent) -> bool {
    v2_ok(f.0)
}

/// Mass in milli-units, with its reciprocal precomputed so the integration
/// never divides. Mass is immutable after creation and strictly positive.
#[derive(Clone, Copy, Debug)]
pub struct MassComponent {
    pub mass: i64,
    pub inv_mass: i64,
}

/// One unit of mass, in milli-units; the reciprocal is stored as
/// `INV_MASS_SCALE / mass`.
pub const INV_MASS_SCALE: i64 = 1000000;

/// The mass is strictly positive and the reciprocal is derived from it.
pub open spec fn mass_ok(m: MassComponent) -> bool {
    &&& 1 <= m.mass
    &&& fix_ok(m.mass as int)
    &&& m.inv_mass == INV_MASS_SCALE as int / m.mass as int
}

impl MassComponent {
    /// Build a mass component; the reciprocal is derived once, here.
    pub fn new(mass: i64) -> (m: MassComponent)
        requires
            1 <= mass <= FIX_BOUND,
        ensures
            m.mass == mass,
            mass_ok(m),
    {
        MassComponent { mass, inv_mass: INV_MASS_SCALE / mass }
    }

    /// The stored mass, in milli-units.
    pub fn mass(&self) -> (r: i64)
        ensures
            r == self.mass,
    {
        self.mass
    }

    /// The precomputed reciprocal of the mass.
    pub fn inv_mass(&self) -> (r: i64)
        ensures
            r == self.inv_mass,
    {
        self.inv_mass
    }
}

/// Rate of change of position, in milli-units per second.
#[derive(Clone, Copy, Debug)]
pub struct VelocityComponent(pub Vec2);

/// The stored velocity is representable.
pub open spec fn velocity_ok(v: VelocityComponent) -> bool {
    v2_ok(v.0)
}

/// The velocity after one tick's accumulated force has been applied:
/// `vel + force * inv_mass * dt / INV_MASS_SCALE`, component-wise, rounded
/// toward zero and saturated.
pub open spec fn vel_after_force(vel: Vec2, f: Vec2, inv_mass: int, dt: int) -> Vec2 {
    Vec2 {
        x: sat(vel.x + tdiv(f.x * inv_mass * dt, INV_MASS_SCALE as int)) as i64,
        y: sat(vel.y + tdiv(f.y * inv_mass * dt, INV_MASS_SCALE as int)) as i64,
    }
}

/// Apply the accumulated force to the velocity.
fn apply_force(vel: Vec2, f: Vec2, inv_mass: i64, dt: u32) -> (r: Vec2)
    requires
        v2_ok(vel),
        v2_ok(f),
        0 <= inv_mass <= FIX_BOUND,
    ensures
        r == vel_after_force(vel, f, inv_mass as int, dt as int),
        v2_ok(r),
{
    proof {
        lemma_mul_bounds(f.x as int, FIX_BOUND as int, inv_mass as int, FIX_BOUND as int);
        lemma_mul_bounds(f.y as int, FIX_BOUND as int, inv_mass as int, FIX_BOUND as int);
        lemma_mul_bounds(
            f.x as int * inv_mass as int,
            FIX_BOUND as int * FIX_BOUND as int,
            dt as int,
            0x1_0000_0000,
        );
        lemma_mul_bounds(
            f.y as int * inv_mass as int,
            FIX_BOUND as int * FIX_BOUND as int,
            dt as int,
            0x1_0000_0000,
        );
    }
    let nx: i128 = f.x as i128 * inv_mass as i128 * dt as i128;
    let ny: i128 = f.y as i128 * inv_mass as i128 * dt as i128;
    let dx: i128 = tdiv_i128(nx, INV_MASS_SCALE as i128);
    let dy: i128 = tdiv_i128(ny, INV_MASS_SCALE as i128);
    proof {
        crate::fix::lemma_tdiv_in_range(nx as int, INV_MASS_SCALE as int);
        crate::fix::lemma_tdiv_in_range(ny as int, INV_MASS_SCALE as int);
    }
    Vec2 { x: sat_i128(vel.x as i128 + dx), y: sat_i128(vel.y as i128 + dy) }
}

/// What integration does to one record: if it has Position and Velocity,
/// the accumulated force (with a mass) is applied to the velocity and then
/// zeroed, the previous position is captured for interpolation, and the
/// position advances by `velocity * dt / 1000`; otherwise the record is
/// untouched.
pub open spec fn physics_rec(o: EntityRec, dt: int) -> EntityRec {
    if o.pos is Some && o.vel is Some {
        let pos0 = (o.pos->0).0;
        let nv = match (o.vel, o.mass, o.force) {
            (Option::Some(v), Option::Some(m), Option::Some(f)) => vel_after_force(
                v.0,
                f.0,
                m.inv_mass as int,
                dt,
            ),
            (Option::Some(v), _, _) => v.0,
            _ => Vec2 { x: 0, y: 0 },
        };
        EntityRec {
            id: o.id,
            pos: Option::Some(PositionComponent(sv2_add(pos0, sv2_scale_div(nv, dt, 1000)))),
            interpolate: match o.interpolate {
                Option::Some(c) => Option::Some(
                    InterpolateComponent { prev_pos: pos0, interpolated_pos: c.interpolated_pos },
                ),
                Option::None => Option::None,
            },
            vel: Option::Some(VelocityComponent(nv)),
            force: match (o.mass, o.force) {
                (Option::Some(_), Option::Some(_)) => Option::Some(
                    ForceComponent(Vec2 { x: 0, y: 0 }),
                ),
                _ => o.force,
            },
            mass: o.mass,
            hitbox: o.hitbox,
            hurtbox: o.hurtbox,
            health: o.health,
            lifespan: o.lifespan,
            remove_on_hit: o.remove_on_hit,
            player: o.player,
            reflect_within: o.reflect_within,
        }
    } else {
        o
    }
}

/// The integration pass as a relation between the world before and after:
/// every record is rewritten by `physics_rec`. The scheduler's pipeline
/// contract composes the passes through these relations.
pub open spec fn physics_rel(w0: Seq<EntityRec>, w1: Seq<EntityRec>, dt: int) -> bool {
    &&& w1.len() == w0.len()
    &&& forall|i: int|
        0 <= i < w0.len() ==> rec_equiv(physics_rec(w0[i], dt), #[trigger] w1[i])
}

/// Physics integration: for every entity with Velocity and Position, apply
/// forces, capture the previous position, and advance the position.
pub fn physics(world: &mut World, time: &Time)
    requires
        old(world).wf(),
    ensures
        final(world).wf(),
        final(world).next_id() == old(world).next_id(),
        physics_rel(old(world).view(), final(world).view(), time.elapsed_millis as int),
{
    let ghost dt = time.elapsed_millis as int;
    let n = world.len();
    let mut i: usize = 0;
    while i < n
        invariant
            world.wf(),
            n == old(world).view().len(),
            world.view().len() == n,
            world.next_id() == old(world).next_id(),
            i <= n,
            dt == time.elapsed_millis as int,
            forall|j: int|
                0 <= j < i ==> rec_equiv(
                    physics_rec(old(world).view()[j], dt),
                    #[trigger] world.view()[j],
                ),
            forall|j: int| i <= j < n ==> #[trigger] world.view()[j] == old(world).view()[j],
        decreases n - i,
    {
        let has = {
            let r = world.get(i);
            r.pos.is_some() && r.vel.is_some()
        };
        if has {
            let mut rec = dup_rec(world.get(i));
            let pos0: Vec2 = match rec.pos {
                Option::Some(c) => c.0,
                Option::None => vstd::pervasive::unreached(),
            };
            let vel0: Vec2 = match rec.vel {
                Option::Some(c) => c.0,
                Option::None => vstd::pervasive::unreached(),
            };
            let new_vel: Vec2 = match (rec.mass, rec.force) {
                (Option::Some(m), Option::Some(f)) => {
                    rec.force = Option::Some(ForceComponent(Vec2 { x: 0, y: 0 }));
                    apply_force(vel0, f.0, m.inv_mass, time.elapsed_millis)
                },
                _ => vel0,
            };
            rec.vel = Option::Some(VelocityComponent(new_vel));
            match rec.interpolate {
                Option::Some(c) => {
                    rec.interpolate = Option::Some(
                        InterpolateComponent {
                            prev_pos: pos0,
                            interpolated_pos: c.interpolated_pos,
                        },
                    );
                },
                Option::None => {},
            }
            let new_pos = v2_add(pos0, v2_scale_div(new_vel, time.elapsed_millis as i64, 1000));
            rec.pos = Option::Some(PositionComponent(new_pos));
            world.set(i, rec);
        }
        i = i + 1;
    }
}

} // verus!
