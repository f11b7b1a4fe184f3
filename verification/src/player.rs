//! The player component, and the intent, action and reaction passes.

use vstd::prelude::*;
use crate::bullet::{LifespanComponent, RemoveOnHitComponent};
use crate::collision::Shape;
use crate::fix::{
    isqrt, lemma_mag_sq_nonneg, lemma_sqrt_floor_exists, lemma_sqrt_floor_unique, mag_sq,
    normalize_to, sqrt_floor, sv2_add, sv2_normalize_to, sv2_scale_div, sv2_sub, v2_add,
    v2_dot_exec, v2_ok, v2_scale_div, v2_sub, Vec2,
};
use crate::health::hit_effect;
use crate::hitbox::{HitboxComponent, HitboxEffect, HitboxMask};
use crate::interpolate::InterpolateComponent;
use crate::physics::{ForceComponent, VelocityComponent};
use crate::position::PositionComponent;
use crate::resource::{GuiOverride, GuiOverrideQueue, Input, Time};
use crate::store::{
    dup_rec, lemma_id_unique, rec_ok, CommandBuffer, Entity, EntityRec, World,
};
use crate::timer::Timer;

verus! {

/// A player's persistent state and transient per-tick shoot intent.
#[derive(Clone, Copy, Debug)]
pub struct PlayerComponent {
    // Attributes.
    pub shoot_cooldown: Timer,
    pub inventory: Inventory,
    pub docked_to: Option<Entity>,
    // Intra-frame state.
    pub shoot: Option<Vec2>,
}

/// What the player is carrying; a placeholder for now.
#[derive(Clone, Copy, Debug)]
pub struct Inventory {}

/// The cooldown timer is valid and any aim direction is representable.
pub open spec fn player_ok(p: PlayerComponent) -> bool {
    &&& p.shoot_cooldown.wf()
    &&& match p.shoot {
        Option::Some(dir) => v2_ok(dir),
        Option::None => true,
    }
}

/// The top speed a player steers toward, in milli-units per second.
pub const PLAYER_GOAL_SPEED: i64 = 250;

/// The largest steering force magnitude, in milli-units.
pub const MAX_FORCE: i64 = 1000000000;

/// The corrective force factor pulling a docked player toward its station.
pub const STATION_SNAP_FACTOR: i64 = 10000;

/// Time between shots, in milliseconds.
pub const SHOOT_COOLDOWN_MILLIS: i64 = 100;

/// How far ahead of the player a bullet spawns, in milli-units.
pub const BULLET_SPAWN_DISTANCE: i64 = 20000;

/// Muzzle speed added to the player's velocity, in milli-units per second.
pub const BULLET_SPEED: i64 = 1000000;

/// How long a bullet lives, in milliseconds.
pub const BULLET_LIFESPAN_MILLIS: i64 = 1000;

/// A bullet's collider radius, in milli-units.
pub const BULLET_RADIUS: i64 = 5000;

/// Damage dealt by one bullet, in milli-health.
pub const BULLET_DAMAGE: i64 = 1000;

/// Dead-zone shaping of a stick vector: magnitudes at or below half
/// deflection are suppressed, and the upper half is rescaled so the usable
/// range maps onto full deflection.
pub open spec fn deadzone_shaped(mv: Vec2) -> Vec2 {
    let r = sqrt_floor(mag_sq(mv));
    let f = if (r - 500) * 2 < 0 {
        0
    } else if (r - 500) * 2 > 1000 {
        1000
    } else {
        (r - 500) * 2
    };
    if f > 1 {
        sv2_normalize_to(mv, f)
    } else {
        Vec2 { x: 0, y: 0 }
    }
}

/// Compute the dead-zone-shaped stick vector.
fn deadzone_shape(mv: Vec2) -> (r: Vec2)
    requires
        v2_ok(mv),
    ensures
        r == deadzone_shaped(mv),
        v2_ok(r),
{
    let d: i128 = v2_dot_exec(mv, mv);
    proof {
        lemma_mag_sq_nonneg(mv);
        lemma_sqrt_floor_exists(d as int);
        crate::fix::lemma_mul_bounds(
            mv.x as int,
            crate::fix::FIX_BOUND as int,
            mv.x as int,
            crate::fix::FIX_BOUND as int,
        );
        crate::fix::lemma_mul_bounds(
            mv.y as int,
            crate::fix::FIX_BOUND as int,
            mv.y as int,
            crate::fix::FIX_BOUND as int,
        );
    }
    let mag: u64 = isqrt(d as u128);
    proof {
        lemma_sqrt_floor_unique(d as int, mag as int, sqrt_floor(d as int));
        assert(mag as int * mag as int <= d as int);
        assert(mag <= 0x200_0000_0000) by (nonlinear_arith)
            requires
                mag as int * mag as int <= d as int,
                d as int <= 2 * (0x100_0000_0000 * 0x100_0000_0000),
                mag >= 0,
        ;
    }
    let shifted: i64 = (mag as i64 - 500) * 2;
    let f: i64 = if shifted < 0 {
        0
    } else if shifted > 1000 {
        1000
    } else {
        shifted
    };
    if f > 1 {
        normalize_to(mv, f)
    } else {
        Vec2 { x: 0, y: 0 }
    }
}

/// The force the intent pass adds for an undocked player: the force that
/// would reach the goal velocity within one tick, clamped to the maximum
/// magnitude.
pub open spec fn plan_force_add(mv: Vec2, vel: Vec2, mass: int, dt: int) -> Vec2 {
    let gv = sv2_scale_div(deadzone_shaped(mv), PLAYER_GOAL_SPEED as int, 1);
    let gf = sv2_scale_div(sv2_sub(gv, vel), mass, dt);
    if mag_sq(gf) < MAX_FORCE as int * MAX_FORCE as int {
        gf
    } else {
        sv2_normalize_to(gf, MAX_FORCE as int)
    }
}

/// Compute the undocked steering force.
fn plan_force(mv: Vec2, vel: Vec2, mass: i64, dt: u32) -> (r: Vec2)
    requires
        v2_ok(mv),
        v2_ok(vel),
        1 <= mass <= crate::fix::FIX_BOUND,
        1 <= dt,
    ensures
        r == plan_force_add(mv, vel, mass as int, dt as int),
        v2_ok(r),
{
    let gv = v2_scale_div(deadzone_shape(mv), PLAYER_GOAL_SPEED, 1);
    let gf = v2_scale_div(v2_sub(gv, vel), mass, dt as i64);
    let m2: i128 = v2_dot_exec(gf, gf);
    proof {
        crate::fix::lemma_prod_bound(MAX_FORCE as int, MAX_FORCE as int);
    }
    if m2 < MAX_FORCE as i128 * MAX_FORCE as i128 {
        gf
    } else {
        normalize_to(gf, MAX_FORCE)
    }
}

/// The record carries everything the intent pass needs: velocity, a force
/// accumulator, a mass, and a player.
pub open spec fn plannable(o: EntityRec) -> bool {
    o.vel is Some && o.force is Some && o.mass is Some && o.player is Some
}

/// The station the record is docked to resolves to a live entity with a
/// position, and the record itself has a position.
pub open spec fn dock_resolves(o: EntityRec, w: Seq<EntityRec>) -> bool {
    o.pos is Some && exists|k: int|
        0 <= k < w.len() && w[k].id == (o.player->0).docked_to->0 && w[k].pos is Some
}

/// The position of the entity with identifier `e`, where it resolves.
pub open spec fn pos_of(w: Seq<EntityRec>, e: Entity) -> Vec2 {
    let k = choose|k: int| 0 <= k < w.len() && w[k].id == e && w[k].pos is Some;
    (w[k].pos->0).0
}

/// All fields but the force accumulator and the player agree between the
/// two records.
pub open spec fn equiv_but_plan(a: EntityRec, b: EntityRec) -> bool {
    &&& b.id == a.id
    &&& b.pos == a.pos
    &&& b.interpolate == a.interpolate
    &&& b.vel == a.vel
    &&& b.mass == a.mass
    &&& crate::store::colliders_equiv(a, b)
    &&& b.health == a.health
    &&& b.lifespan == a.lifespan
    &&& b.remove_on_hit == a.remove_on_hit
    &&& b.reflect_within == a.reflect_within
}

/// What the intent pass does to one record, as a relation: the docked
/// branch pulls toward the station and suppresses shooting; the undocked
/// branch steers and handles the cooldown and fire input; records without
/// the needed components are untouched.
pub open spec fn plan_rec_rel(
    o: EntityRec,
    m: EntityRec,
    w0: Seq<EntityRec>,
    input: Input,
    dt: int,
) -> bool {
    &&& equiv_but_plan(o, m)
    &&& if plannable(o) {
        let p = o.player->0;
        match p.docked_to {
            Option::Some(_) => {
                &&& m.force == (if dock_resolves(o, w0) {
                    Option::Some(
                        ForceComponent(
                            sv2_add(
                                (o.force->0).0,
                                sv2_scale_div(
                                    sv2_sub(pos_of(w0, p.docked_to->0), (o.pos->0).0),
                                    STATION_SNAP_FACTOR as int,
                                    1,
                                ),
                            ),
                        ),
                    )
                } else {
                    o.force
                })
                &&& m.player matches Option::Some(p2) && p2.shoot is None && p2.shoot_cooldown
                    == p.shoot_cooldown && p2.docked_to == p.docked_to
            },
            Option::None => {
                &&& m.force == (Option::Some(
                    ForceComponent(
                        sv2_add(
                            (o.force->0).0,
                            plan_force_add(input.move_, (o.vel->0).0, (o.mass->0).mass as int, dt),
                        ),
                    ),
                ))
                &&& m.player matches Option::Some(p2) && {
                    let elapsed = p.shoot_cooldown.remaining() - dt <= 0;
                    &&& p2.docked_to is None
                    &&& p2.shoot == (if elapsed && input.fire {
                        Option::Some(input.aim)
                    } else {
                        Option::<Vec2>::None
                    })
                    &&& p2.shoot_cooldown.remaining() == (if elapsed && input.fire {
                        SHOOT_COOLDOWN_MILLIS as int
                    } else if p.shoot_cooldown.remaining() - dt >= 0 {
                        p.shoot_cooldown.remaining() - dt
                    } else {
                        0
                    })
                }
            },
        }
    } else {
        m.force == o.force && m.player == o.player
    }
}

/// The intent pass as a relation between the world before and after.
pub open spec fn plan_rel(w0: Seq<EntityRec>, w1: Seq<EntityRec>, input: Input, dt: int) -> bool {
    &&& w1.len() == w0.len()
    &&& forall|i: int| 0 <= i < w0.len() ==> plan_rec_rel(w0[i], #[trigger] w1[i], w0, input, dt)
}

/// Player intent: a docked player is pulled toward its station and cannot
/// shoot; an undocked player steers toward the dead-zone-shaped goal
/// velocity under the force cap, and records shoot intent when the
/// cooldown has elapsed and fire is held.
pub fn player_plan(world: &mut World, time: &Time, input: &Input)
    requires
        old(world).wf(),
        crate::resource::input_ok(*input),
        1 <= time.elapsed_millis,
    ensures
        final(world).wf(),
        final(world).next_id() == old(world).next_id(),
        plan_rel(
            old(world).view(),
            final(world).view(),
            *input,
            time.elapsed_millis as int,
        ),
{
    let ghost w0 = old(world).view();
    let n = world.len();
    let mut i: usize = 0;
    while i < n
        invariant
            world.wf(),
            crate::store::ascending(w0),
            forall|k: int| 0 <= k < n ==> crate::store::rec_ok(#[trigger] w0[k]),
            n == w0.len(),
            world.view().len() == n,
            world.next_id() == old(world).next_id(),
            i <= n,
            crate::resource::input_ok(*input),
            1 <= time.elapsed_millis,
            forall|j: int|
                0 <= j < i ==> plan_rec_rel(
                    w0[j],
                    #[trigger] world.view()[j],
                    w0,
                    *input,
                    time.elapsed_millis as int,
                ),
            forall|j: int| i <= j < n ==> #[trigger] world.view()[j] == w0[j],
            forall|j: int|
                0 <= j < n ==> #[trigger] world.view()[j].id == w0[j].id && world.view()[j].pos
                    == w0[j].pos,
        decreases n - i,
    {
        let process = {
            let r = world.get(i);
            r.vel.is_some() && r.force.is_some() && r.mass.is_some() && r.player.is_some()
        };
        if process {
            let mut rec = dup_rec(world.get(i));
            let mut p: PlayerComponent = match rec.player {
                Option::Some(p) => p,
                Option::None => vstd::pervasive::unreached(),
            };
            let f0: Vec2 = match rec.force {
                Option::Some(f) => f.0,
                Option::None => vstd::pervasive::unreached(),
            };
            match p.docked_to {
                Option::Some(station) => {
                    if rec.pos.is_some() {
                        let own_pos: Vec2 = match rec.pos {
                            Option::Some(c) => c.0,
                            Option::None => vstd::pervasive::unreached(),
                        };
                        match world.find(station) {
                            Option::Some(k) => {
                                let st_pos_opt: Option<Vec2> = match &world.get(k).pos {
                                    Option::Some(c) => Option::Some(c.0),
                                    Option::None => Option::None,
                                };
                                match st_pos_opt {
                                    Option::Some(st_pos) => {
                                        proof {
                                            assert(world.view()[k as int].id == w0[k as int].id);
                                            assert(dock_resolves(w0[i as int], w0)) by {
                                                assert(0 <= k < w0.len() && w0[k as int].id
                                                    == station && w0[k as int].pos is Some);
                                            }
                                            let kk = choose|kk: int|
                                                0 <= kk < w0.len() && w0[kk].id == station
                                                    && w0[kk].pos is Some;
                                            lemma_id_unique(w0, k as int, kk);
                                        }
                                        let pull = v2_scale_div(
                                            v2_sub(st_pos, own_pos),
                                            STATION_SNAP_FACTOR,
                                            1,
                                        );
                                        rec.force = Option::Some(ForceComponent(v2_add(f0, pull)));
                                    },
                                    Option::None => {
                                        proof {
                                            assert(world.view()[k as int].id == w0[k as int].id);
                                            assert(!dock_resolves(w0[i as int], w0)) by {
                                                if dock_resolves(w0[i as int], w0) {
                                                    let kk = choose|kk: int|
                                                        0 <= kk < w0.len() && w0[kk].id == station
                                                            && w0[kk].pos is Some;
                                                    lemma_id_unique(w0, k as int, kk);
                                                }
                                            }
                                        }
                                    },
                                }
                            },
                            Option::None => {
                                proof {
                                    assert(!dock_resolves(w0[i as int], w0)) by {
                                        if dock_resolves(w0[i as int], w0) {
                                            let kk = choose|kk: int|
                                                0 <= kk < w0.len() && w0[kk].id == station
                                                    && w0[kk].pos is Some;
                                            assert(world.view()[kk].id == station);
                                            assert(world.has_id(station));
                                        }
                                    }
                                }
                            },
                        }
                    } else {
                        proof {
                            assert(!dock_resolves(w0[i as int], w0));
                        }
                    }
                    p.shoot = Option::None;
                    rec.player = Option::Some(p);
                },
                Option::None => {
                    let vel0: Vec2 = match rec.vel {
                        Option::Some(v) => v.0,
                        Option::None => vstd::pervasive::unreached(),
                    };
                    let mass0: i64 = match rec.mass {
                        Option::Some(m) => m.mass,
                        Option::None => vstd::pervasive::unreached(),
                    };
                    let add = plan_force(input.move_, vel0, mass0, time.elapsed_millis);
                    rec.force = Option::Some(ForceComponent(v2_add(f0, add)));
                    let elapsed = p.shoot_cooldown.step_and_is_elapsed(time);
                    if elapsed && input.fire {
                        p.shoot = Option::Some(input.aim);
                        p.shoot_cooldown.reset(SHOOT_COOLDOWN_MILLIS);
                    } else {
                        p.shoot = Option::None;
                    }
                    rec.player = Option::Some(p);
                },
            }
            world.set(i, rec);
        }
        i = i + 1;
    }
}

/// The record is a player about to shoot: it has a position, a velocity,
/// and recorded shoot intent.
pub open spec fn shooter(o: EntityRec) -> bool {
    o.pos is Some && o.vel is Some && o.player is Some && (o.player->0).shoot is Some
}

/// `b` is exactly the projectile spawned for shooter `o`: positioned just
/// ahead of the shooter along the aim direction, moving with the shooter's
/// velocity plus the muzzle speed, short-lived, damaging, and removed on
/// its first hit.
pub open spec fn bullet_matches(b: EntityRec, o: EntityRec) -> bool {
    let pos = (o.pos->0).0;
    let vel = (o.vel->0).0;
    let dir = (o.player->0).shoot->0;
    let bp = sv2_add(pos, sv2_normalize_to(dir, BULLET_SPAWN_DISTANCE as int));
    &&& b.pos == (Option::Some(PositionComponent(bp)))
    &&& b.interpolate matches Option::Some(c) && c.prev_pos == bp && c.interpolated_pos == bp
    &&& b.vel == (Option::Some(
        VelocityComponent(sv2_add(vel, sv2_normalize_to(dir, BULLET_SPEED as int))),
    ))
    &&& b.force is None
    &&& b.mass is None
    &&& b.hitbox matches Option::Some(h) && h.shape == (Shape::Circle { radius: BULLET_RADIUS })
        && h.dbvt_index is None && h.mask.0 == 1u32 && h.effect == HitboxEffect::Damage(
        BULLET_DAMAGE,
    ) && h.hit_entities@.len() == 0
    &&& b.hurtbox is None
    &&& b.health is None
    &&& b.lifespan matches Option::Some(l) && l.0.remaining() == BULLET_LIFESPAN_MILLIS as int
    &&& b.remove_on_hit is Some
    &&& b.player is None
    &&& b.reflect_within is None
}

/// `b` is the projectile of some live shooter; only such records may be
/// queued by the action pass.
pub open spec fn spawn_justified(b: EntityRec, w: Seq<EntityRec>) -> bool {
    exists|k: int| 0 <= k < w.len() && shooter(#[trigger] w[k]) && bullet_matches(b, w[k])
}

/// The action pass as a relation between the world and the spawn queue
/// before and after: the queue grows by the exact bullet of each shooter
/// and by nothing else.
pub open spec fn act_rel(w: Seq<EntityRec>, s0: Seq<EntityRec>, s1: Seq<EntityRec>) -> bool {
    &&& s0.len() <= s1.len()
    &&& s1.len() <= s0.len() + w.len()
    &&& s1.subrange(0, s0.len() as int) == s0
    &&& forall|j: int| s0.len() <= j < s1.len() ==> spawn_justified(#[trigger] s1[j], w)
    &&& forall|i: int|
        0 <= i < w.len() && shooter(#[trigger] w[i]) ==> exists|j: int|
            s0.len() <= j < s1.len() && bullet_matches(#[trigger] s1[j], w[i])
}

/// Player action: every entity with recorded shoot intent queues one new
/// projectile, spawned just ahead of it along the aim direction. The world
/// itself is untouched; the spawn is applied with the command buffer after
/// the pass completes.
pub fn player_act(world: &World, cmd: &mut CommandBuffer)
    requires
        world.wf(),
        old(cmd).wf(),
    ensures
        final(cmd).wf(),
        final(cmd).removes@ == old(cmd).removes@,
        act_rel(world.view(), old(cmd).spawns@, final(cmd).spawns@),
{
    let n = world.len();
    let mut i: usize = 0;
    while i < n
        invariant
            world.wf(),
            cmd.wf(),
            n == world.view().len(),
            i <= n,
            cmd.removes@ == old(cmd).removes@,
            old(cmd).spawns@.len() <= cmd.spawns@.len(),
            cmd.spawns@.len() <= old(cmd).spawns@.len() + i,
            cmd.spawns@.subrange(0, old(cmd).spawns@.len() as int) == old(cmd).spawns@,
            forall|j: int|
                old(cmd).spawns@.len() <= j < cmd.spawns@.len() ==> spawn_justified(
                    #[trigger] cmd.spawns@[j],
                    world.view(),
                ),
            forall|k: int|
                0 <= k < i && shooter(#[trigger] world.view()[k]) ==> exists|j: int|
                    old(cmd).spawns@.len() <= j < cmd.spawns@.len() && bullet_matches(
                        #[trigger] cmd.spawns@[j],
                        world.view()[k],
                    ),
        decreases n - i,
    {
        let r = world.get(i);
        let shoot_dir: Option<Vec2> = match &r.player {
            Option::Some(p) => p.shoot,
            Option::None => Option::None,
        };
        match shoot_dir {
            Option::Some(dir) => if r.pos.is_some() && r.vel.is_some() {
                let pos: Vec2 = match &r.pos {
                    Option::Some(c) => c.0,
                    Option::None => vstd::pervasive::unreached(),
                };
                let vel: Vec2 = match &r.vel {
                    Option::Some(c) => c.0,
                    Option::None => vstd::pervasive::unreached(),
                };
                let bp = v2_add(pos, normalize_to(dir, BULLET_SPAWN_DISTANCE));
                let bv = v2_add(vel, normalize_to(dir, BULLET_SPEED));
                let mut bullet = EntityRec::new();
                bullet.pos = Option::Some(PositionComponent(bp));
                bullet.interpolate = Option::Some(
                    InterpolateComponent { prev_pos: bp, interpolated_pos: bp },
                );
                bullet.vel = Option::Some(VelocityComponent(bv));
                bullet.lifespan = Option::Some(
                    LifespanComponent(Timer::with_remaining(BULLET_LIFESPAN_MILLIS)),
                );
                bullet.hitbox = Option::Some(
                    HitboxComponent {
                        shape: Shape::Circle { radius: BULLET_RADIUS },
                        dbvt_index: Option::None,
                        mask: HitboxMask::target(),
                        effect: HitboxEffect::Damage(BULLET_DAMAGE),
                        hit_entities: Vec::new(),
                    },
                );
                bullet.remove_on_hit = Option::Some(RemoveOnHitComponent);
                let ghost pre = cmd.spawns@;
                proof {
                    assert(bullet_matches(bullet, world.view()[i as int]));
                    assert(rec_ok(bullet));
                }
                cmd.push(bullet);
                proof {
                    let p = |b: EntityRec| spawn_justified(b, world.view());
                    assert(p(bullet)) by {
                        assert(shooter(world.view()[i as int]) && bullet_matches(
                            bullet,
                            world.view()[i as int],
                        ));
                        assert(spawn_justified(bullet, world.view()));
                    }
                    crate::store::lemma_push_justified(
                        pre,
                        cmd.spawns@,
                        old(cmd).spawns@.len() as int,
                        p,
                        bullet,
                    );
                    assert(cmd.spawns@[pre.len() as int] == bullet);
                    let base = old(cmd).spawns@.len() as int;
                    assert forall|k: int|
                        0 <= k < i + 1 && shooter(#[trigger] world.view()[k]) implies exists|j: int|
                        base <= j < cmd.spawns@.len() && bullet_matches(
                            #[trigger] cmd.spawns@[j],
                            world.view()[k],
                        ) by {
                        if k == i as int {
                            assert(bullet_matches(cmd.spawns@[pre.len() as int], world.view()[k]));
                        } else {
                            let jj = choose|jj: int|
                                base <= jj < pre.len() && bullet_matches(
                                    #[trigger] pre[jj],
                                    world.view()[k],
                                );
                            assert(cmd.spawns@[jj] == pre[jj]);
                            assert(bullet_matches(cmd.spawns@[jj], world.view()[k]));
                        }
                    }
                }
            },
            Option::None => {},
        }
        i = i + 1;
    }
}

/// The record can react to docking strikes: it has a hurtbox and a player.
pub open spec fn reactive(o: EntityRec) -> bool {
    o.hurtbox is Some && o.player is Some
}

/// The last entity in the hit-by list whose hitbox carries the docking
/// effect, if any.
pub open spec fn last_dock(w: Seq<EntityRec>, hits: Seq<Entity>) -> Option<Entity>
    decreases hits.len(),
{
    if hits.len() == 0 {
        Option::None
    } else if hit_effect(w, hits.last()) is StationDock {
        Option::Some(hits.last())
    } else {
        last_dock(w, hits.drop_last())
    }
}

/// How many entities in the hit-by list carry the docking effect; the
/// reaction pass queues exactly one override event for each.
pub open spec fn dock_count(w: Seq<EntityRec>, hits: Seq<Entity>) -> int
    decreases hits.len(),
{
    if hits.len() == 0 {
        0
    } else {
        dock_count(w, hits.drop_last()) + if hit_effect(w, hits.last()) is StationDock {
            1int
        } else {
            0int
        }
    }
}

/// The total number of docking strikes recorded against the first `upto`
/// entities that the reaction pass processes.
pub open spec fn world_dock_count(w: Seq<EntityRec>, upto: int) -> int
    decreases upto,
{
    if upto <= 0 {
        0
    } else {
        world_dock_count(w, upto - 1) + if reactive(w[upto - 1]) {
            dock_count(w, (w[upto - 1].hurtbox->0).hit_by_entities@)
        } else {
            0int
        }
    }
}

/// All fields but the player agree between the two records.
pub open spec fn equiv_but_player(a: EntityRec, b: EntityRec) -> bool {
    &&& b.id == a.id
    &&& b.pos == a.pos
    &&& b.interpolate == a.interpolate
    &&& b.vel == a.vel
    &&& b.force == a.force
    &&& b.mass == a.mass
    &&& crate::store::colliders_equiv(a, b)
    &&& b.health == a.health
    &&& b.lifespan == a.lifespan
    &&& b.remove_on_hit == a.remove_on_hit
    &&& b.reflect_within == a.reflect_within
}

/// What the reaction pass does to one record, as a relation: a reactive
/// record's docking reference becomes the last docking striker in its
/// hit-by list, if any; everything else is untouched.
pub open spec fn react_rec_rel(o: EntityRec, m: EntityRec, w0: Seq<EntityRec>) -> bool {
    &&& equiv_but_player(o, m)
    &&& if reactive(o) {
        m.player matches Option::Some(p2) && {
            let p = o.player->0;
            &&& p2.shoot == p.shoot
            &&& p2.shoot_cooldown == p.shoot_cooldown
            &&& p2.docked_to == (match last_dock(w0, (o.hurtbox->0).hit_by_entities@) {
                Option::Some(e) => Option::Some(e),
                Option::None => p.docked_to,
            })
        }
    } else {
        m.player == o.player
    }
}

/// The reaction pass as a relation between the world and the override
/// queue before and after: each record reacts by `react_rec_rel`, and the
/// queue grows by exactly one docking event per docking strike.
pub open spec fn react_rel(
    w0: Seq<EntityRec>,
    w1: Seq<EntityRec>,
    q0: Seq<GuiOverride>,
    q1: Seq<GuiOverride>,
) -> bool {
    &&& w1.len() == w0.len()
    &&& q0.len() <= q1.len()
    &&& q1.subrange(0, q0.len() as int) == q0
    &&& q1.len() == q0.len() + world_dock_count(w0, w0.len() as int)
    &&& forall|k: int| q0.len() <= k < q1.len() ==> (#[trigger] q1[k]) is StationDocked
    &&& forall|i: int| 0 <= i < w0.len() ==> react_rec_rel(w0[i], #[trigger] w1[i], w0)
}

/// Player reaction: a player whose hurtbox was struck by a hitbox with the
/// docking effect records that station as its docking reference and an
/// out-of-band override event is queued for the collaborating GUI.
pub fn player_react(world: &mut World, queue: &mut GuiOverrideQueue)
    requires
        old(world).wf(),
        crate::health::hit_by_resolved(old(world).view()),
    ensures
        final(world).wf(),
        final(world).next_id() == old(world).next_id(),
        react_rel(old(world).view(), final(world).view(), old(queue)@, final(queue)@),
        old(world).view().len() == 0 ==> final(queue)@ == old(queue)@,
{
    let ghost w0 = old(world).view();
    let n = world.len();
    let mut i: usize = 0;
    while i < n
        invariant
            world.wf(),
            crate::store::ascending(w0),
            crate::health::hit_by_resolved(w0),
            n == w0.len(),
            world.view().len() == n,
            world.next_id() == old(world).next_id(),
            i <= n,
            old(queue)@.len() <= queue@.len(),
            queue@.subrange(0, old(queue)@.len() as int) == old(queue)@,
            queue@.len() == old(queue)@.len() + world_dock_count(w0, i as int),
            forall|k: int|
                old(queue)@.len() <= k < queue@.len() ==> (#[trigger] queue@[k]) is StationDocked,
            forall|j: int|
                0 <= j < i ==> react_rec_rel(w0[j], #[trigger] world.view()[j], w0),
            forall|j: int| i <= j < n ==> #[trigger] world.view()[j] == w0[j],
            forall|j: int|
                0 <= j < n ==> #[trigger] world.view()[j].id == w0[j].id
                    && crate::store::opt_hitbox_equiv(w0[j].hitbox, world.view()[j].hitbox),
        decreases n - i,
    {
        let process = {
            let r = world.get(i);
            r.hurtbox.is_some() && r.player.is_some()
        };
        if process {
            let mut rec = dup_rec(world.get(i));
            let mut p: PlayerComponent = match rec.player {
                Option::Some(p) => p,
                Option::None => vstd::pervasive::unreached(),
            };
            let hits: Vec<Entity> = match &rec.hurtbox {
                Option::Some(h) => crate::store::copy_entities(&h.hit_by_entities),
                Option::None => vstd::pervasive::unreached(),
            };
            let ghost hits_seq = (w0[i as int].hurtbox->0).hit_by_entities@;
            proof {
                assert(hits@ == hits_seq);
                assert(hits_seq.subrange(0, 0) =~= Seq::<Entity>::empty());
            }
            let mut dock: Option<Entity> = Option::None;
            let m = hits.len();
            let mut j: usize = 0;
            while j < m
                invariant
                    world.wf(),
                    crate::store::ascending(w0),
                    crate::health::hit_by_resolved(w0),
                    n == w0.len(),
                    world.view().len() == n,
                    0 <= i < n,
                    m == hits_seq.len(),
                    j <= m,
                    hits@ == hits_seq,
                    w0[i as int].hurtbox is Some,
                    hits_seq == (w0[i as int].hurtbox->0).hit_by_entities@,
                    forall|k: int|
                        0 <= k < n ==> #[trigger] world.view()[k].id == w0[k].id
                            && crate::store::opt_hitbox_equiv(w0[k].hitbox, world.view()[k].hitbox),
                    old(queue)@.len() <= queue@.len(),
                    queue@.subrange(0, old(queue)@.len() as int) == old(queue)@,
                    0 <= i < n,
                    reactive(w0[i as int]),
                    queue@.len() == old(queue)@.len() + world_dock_count(w0, i as int) + dock_count(
                        w0,
                        hits_seq.subrange(0, j as int),
                    ),
                    forall|k: int|
                        old(queue)@.len() <= k < queue@.len() ==> (#[trigger] queue@[k])
                            is StationDocked,
                    dock == last_dock(w0, hits_seq.subrange(0, j as int)),
                decreases m - j,
            {
                let e = hits[j];
                proof {
                    assert(hits_seq[j as int] == e);
                    assert(exists|k: int| 0 <= k < w0.len() && w0[k].id == e && w0[k].hitbox is Some);
                }
                let found = world.find(e);
                let k: usize = match found {
                    Option::Some(k) => k,
                    Option::None => {
                        proof {
                            let kk = choose|kk: int|
                                0 <= kk < w0.len() && w0[kk].id == e && w0[kk].hitbox is Some;
                            assert(world.view()[kk].id == e);
                            assert(world.has_id(e));
                        }
                        vstd::pervasive::unreached()
                    },
                };
                let ghost kk = choose|kk: int|
                    0 <= kk < w0.len() && w0[kk].id == e && w0[kk].hitbox is Some;
                proof {
                    assert(world.view()[kk].id == w0[kk].id);
                    lemma_id_unique(world.view(), k as int, kk);
                    assert(world.view()[k as int].hitbox is Some);
                }
                let eff: HitboxEffect = match &world.get(k).hitbox {
                    Option::Some(h) => h.effect,
                    Option::None => vstd::pervasive::unreached(),
                };
                proof {
                    assert(hit_effect(w0, e) == (w0[kk].hitbox->0).effect);
                    assert((world.view()[k as int].hitbox->0).effect == (w0[kk].hitbox->0).effect);
                }
                match eff {
                    HitboxEffect::StationDock => {
                        dock = Option::Some(e);
                        let ghost q_pre = queue@;
                        queue.push_back(GuiOverride::StationDocked);
                        proof {
                            assert(queue@.subrange(0, old(queue)@.len() as int)
                                =~= old(queue)@);
                            assert forall|k: int|
                                old(queue)@.len() <= k < queue@.len() implies (
                            #[trigger] queue@[k]) is StationDocked by {
                                if k < q_pre.len() {
                                    assert(queue@[k] == q_pre[k]);
                                } else {
                                    assert(queue@[k] == GuiOverride::StationDocked);
                                }
                            }
                        }
                    },
                    HitboxEffect::Inert => {},
                    HitboxEffect::Damage(_) => {},
                }
                proof {
                    let pre = hits_seq.subrange(0, j as int);
                    let post = hits_seq.subrange(0, j as int + 1);
                    assert(post.drop_last() =~= pre);
                    assert(post.last() == e);
                    assert(last_dock(w0, post) == if hit_effect(w0, e) is StationDock {
                        Option::Some(e)
                    } else {
                        last_dock(w0, pre)
                    });
                    assert(dock_count(w0, post) == dock_count(w0, pre) + if hit_effect(
                        w0,
                        e,
                    ) is StationDock {
                        1int
                    } else {
                        0int
                    });
                }
                j = j + 1;
            }
            proof {
                assert(hits_seq.subrange(0, m as int) =~= hits_seq);
                assert(world_dock_count(w0, i as int + 1) == world_dock_count(w0, i as int)
                    + dock_count(w0, hits_seq));
            }
            match dock {
                Option::Some(st) => {
                    p.docked_to = Option::Some(st);
                },
                Option::None => {},
            }
            rec.player = Option::Some(p);
            world.set(i, rec);
        }
        i = i + 1;
    }
}

} // verus!
