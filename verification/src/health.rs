//! Health and the damage pass.

use vstd::prelude::*;
use crate::fix::fix_ok;
use crate::hitbox::HitboxEffect;
use crate::resource::Time;
use crate::store::{
    ascending, dup_rec, lemma_id_unique, lemma_removes_extend, CommandBuffer, Entity, EntityRec,
    World,
};
use crate::timer::Timer;

verus! {

/// Current health, never negative, plus a short hit-flash countdown used
/// for visual feedback.
#[derive(Clone, Copy, Debug)]
pub struct HealthComponent {
    pub health: i64,
    pub hit_flash: Timer,
}

/// Health is non-negative and representable, and the flash timer is valid.
pub open spec fn health_ok(h: HealthComponent) -> bool {
    0 <= h.health && fix_ok(h.health as int) && h.hit_flash.wf()
}

/// How long the hit flash lasts after a damaging strike, in milliseconds.
pub const HIT_FLASH_DURATION_MILLIS: i64 = 50;

impl HealthComponent {
    /// A full-health component whose hit flash has already elapsed.
    pub fn new(health: i64) -> (h: HealthComponent)
        requires
            0 <= health,
            fix_ok(health as int),
        ensures
            h.health == health,
            h.hit_flash.remaining() == 0,
            health_ok(h),
    {
        HealthComponent { health, hit_flash: Timer::elapsed() }
    }

    /// Whether the hit flash is still showing.
    pub fn is_hit_flashing(&self) -> (r: bool)
        requires
            self.hit_flash.wf(),
        ensures
            r == (self.hit_flash.remaining() != 0),
    {
        !self.hit_flash.is_elapsed()
    }
}

/// Clamp a mathematical value at zero.
pub open spec fn clamp0(x: int) -> int {
    if x < 0 {
        0
    } else {
        x
    }
}

/// The effect of the hitbox owned by entity `e` in world `w`; `Inert` when
/// `e` does not resolve to a live entity with a hitbox.
pub open spec fn hit_effect(w: Seq<EntityRec>, e: Entity) -> HitboxEffect {
    if exists|j: int| 0 <= j < w.len() && w[j].id == e && w[j].hitbox is Some {
        let j = choose|j: int| 0 <= j < w.len() && w[j].id == e && w[j].hitbox is Some;
        (w[j].hitbox->0).effect
    } else {
        HitboxEffect::Inert
    }
}

/// The damage dealt by entity `e`'s hitbox; zero for non-damaging effects.
pub open spec fn hit_damage(w: Seq<EntityRec>, e: Entity) -> int {
    match hit_effect(w, e) {
        HitboxEffect::Damage(d) => d as int,
        _ => 0,
    }
}

/// The total damage dealt by a hit-by list.
pub open spec fn sum_damage(w: Seq<EntityRec>, hits: Seq<Entity>) -> int
    decreases hits.len(),
{
    if hits.len() == 0 {
        0
    } else {
        sum_damage(w, hits.drop_last()) + hit_damage(w, hits.last())
    }
}

/// Whether any entity in the hit-by list carries a damaging effect.
pub open spec fn any_damaging(w: Seq<EntityRec>, hits: Seq<Entity>) -> bool
    decreases hits.len(),
{
    if hits.len() == 0 {
        false
    } else {
        any_damaging(w, hits.drop_last()) || hit_effect(w, hits.last()) is Damage
    }
}

/// Every identifier in every hit-by list resolves to a live entity with a
/// hitbox. The hit-resolution pass establishes this, and removal is
/// deferred past this pass, so the lookups here cannot dangle.
pub open spec fn hit_by_resolved(w: Seq<EntityRec>) -> bool {
    forall|i: int, j: int|
        0 <= i < w.len() && w[i].hurtbox is Some && 0 <= j < (w[i].hurtbox->0).hit_by_entities@.len()
            ==> exists|k: int|
            0 <= k < w.len() && w[k].id == (#[trigger] (w[i].hurtbox->0).hit_by_entities@[j])
                && w[k].hitbox is Some
}

/// All fields but the health agree between the two records.
pub open spec fn equiv_but_health(a: EntityRec, b: EntityRec) -> bool {
    &&& b.id == a.id
    &&& b.pos == a.pos
    &&& b.interpolate == a.interpolate
    &&& b.vel == a.vel
    &&& b.force == a.force
    &&& b.mass == a.mass
    &&& crate::store::colliders_equiv(a, b)
    &&& b.lifespan == a.lifespan
    &&& b.remove_on_hit == a.remove_on_hit
    &&& b.player == a.player
    &&& b.reflect_within == a.reflect_within
}

/// The damage pass processes this record: it is damageable and collidable.
pub open spec fn damageable(o: EntityRec) -> bool {
    o.health is Some && o.hurtbox is Some
}

/// What the damage pass leaves as the record's health: the old health less
/// the total damage of every hitbox that struck it this tick, clamped at
/// zero.
pub open spec fn damaged_health(o: EntityRec, w: Seq<EntityRec>) -> int {
    clamp0((o.health->0).health - sum_damage(w, (o.hurtbox->0).hit_by_entities@))
}

/// Some live damageable entity has identifier `e` and ends the tick at
/// exactly zero health; only such identifiers may be queued by the damage
/// pass.
pub open spec fn damage_removal_justified(e: Entity, w: Seq<EntityRec>) -> bool {
    exists|k: int|
        0 <= k < w.len() && e == w[k].id && damageable(w[k]) && damaged_health(w[k], w) == 0
}

/// What the damage pass does to one record, as a relation: a damageable
/// record's health becomes `damaged_health` and its hit flash is stepped,
/// restarting on any damaging strike; everything else is untouched.
pub open spec fn damage_rec_rel(o: EntityRec, m: EntityRec, w0: Seq<EntityRec>, dt: int) -> bool {
    &&& equiv_but_health(o, m)
    &&& if damageable(o) {
        m.health matches Option::Some(h2) && h2.health == damaged_health(o, w0)
            && h2.hit_flash.remaining() == if any_damaging(w0, (o.hurtbox->0).hit_by_entities@) {
            HIT_FLASH_DURATION_MILLIS as int
        } else {
            if (o.health->0).hit_flash.remaining() - dt >= 0 {
                (o.health->0).hit_flash.remaining() - dt
            } else {
                0
            }
        }
    } else {
        m.health == o.health
    }
}

/// The damage pass as a relation between the world and the removal list
/// before and after: each record is damaged by `damage_rec_rel`, every
/// entity ending the tick at exactly zero health is queued, and only such
/// entities are queued.
pub open spec fn damage_rel(
    w0: Seq<EntityRec>,
    w1: Seq<EntityRec>,
    dt: int,
    r0: Seq<Entity>,
    r1: Seq<Entity>,
) -> bool {
    &&& w1.len() == w0.len()
    &&& r0.len() <= r1.len()
    &&& r1.subrange(0, r0.len() as int) == r0
    &&& forall|i: int| 0 <= i < w0.len() ==> damage_rec_rel(w0[i], #[trigger] w1[i], w0, dt)
    &&& forall|i: int|
        0 <= i < w0.len() && damageable(#[trigger] w0[i]) && damaged_health(w0[i], w0) == 0
            ==> r1.contains(w0[i].id)
    &&& forall|j: int|
        r0.len() <= j < r1.len() ==> damage_removal_justified(#[trigger] r1[j], w0)
}

/// Damage: for every entity with Health and a Hurtbox, advance the
/// hit-flash countdown, subtract the damage of every hitbox that struck it
/// this tick (clamping health at zero, and restarting the hit flash on any
/// damaging strike), and queue the entity for removal if its health ends
/// the tick at exactly zero.
pub fn damage(world: &mut World, time: &Time, cmd: &mut CommandBuffer)
    requires
        old(world).wf(),
        old(cmd).wf(),
        hit_by_resolved(old(world).view()),
    ensures
        final(world).wf(),
        final(world).next_id() == old(world).next_id(),
        final(cmd).wf(),
        final(cmd).spawns@ == old(cmd).spawns@,
        damage_rel(
            old(world).view(),
            final(world).view(),
            time.elapsed_millis as int,
            old(cmd).removes@,
            final(cmd).removes@,
        ),
{
    let ghost w0 = old(world).view();
    let n = world.len();
    let mut i: usize = 0;
    while i < n
        invariant
            world.wf(),
            cmd.wf(),
            ascending(w0),
            hit_by_resolved(w0),
            forall|k: int| 0 <= k < n ==> crate::store::rec_ok(#[trigger] w0[k]),
            n == w0.len(),
            world.view().len() == n,
            world.next_id() == old(world).next_id(),
            i <= n,
            cmd.spawns@ == old(cmd).spawns@,
            old(cmd).removes@.len() <= cmd.removes@.len(),
            cmd.removes@.subrange(0, old(cmd).removes@.len() as int) == old(cmd).removes@,
            forall|j: int|
                0 <= j < i ==> damage_rec_rel(
                    w0[j],
                    #[trigger] world.view()[j],
                    w0,
                    time.elapsed_millis as int,
                ),
            forall|j: int| i <= j < n ==> #[trigger] world.view()[j] == w0[j],
            forall|j: int|
                0 <= j < n ==> #[trigger] world.view()[j].id == w0[j].id
                    && crate::store::opt_hitbox_equiv(w0[j].hitbox, world.view()[j].hitbox),
            forall|j: int|
                0 <= j < i && damageable(#[trigger] w0[j]) && damaged_health(w0[j], w0) == 0
                    ==> cmd.removes@.contains(w0[j].id),
            forall|j: int|
                old(cmd).removes@.len() <= j < cmd.removes@.len() ==> damage_removal_justified(
                    #[trigger] cmd.removes@[j],
                    w0,
                ),
        decreases n - i,
    {
        let process = {
            let r = world.get(i);
            r.health.is_some() && r.hurtbox.is_some()
        };
        if process {
            let mut rec = dup_rec(world.get(i));
            let h0: HealthComponent = match rec.health {
                Option::Some(h) => h,
                Option::None => vstd::pervasive::unreached(),
            };
            let hits: Vec<Entity> = match &rec.hurtbox {
                Option::Some(h) => crate::store::copy_entities(&h.hit_by_entities),
                Option::None => vstd::pervasive::unreached(),
            };
            let ghost hits_seq = (w0[i as int].hurtbox->0).hit_by_entities@;
            proof {
                assert(hits@ == hits_seq);
            }
            let mut cur: i64 = h0.health;
            let mut flash: Timer = h0.hit_flash;
            flash.step(time);
            let ghost stepped = flash.remaining();
            let mut damaged: bool = false;
            let m = hits.len();
            let mut j: usize = 0;
            proof {
                assert(hits_seq.subrange(0, 0) =~= Seq::<Entity>::empty());
            }
            while j < m
                invariant
                    world.wf(),
                    ascending(w0),
                    hit_by_resolved(w0),
                    forall|k: int| 0 <= k < n ==> crate::store::rec_ok(#[trigger] w0[k]),
                    n == w0.len(),
                    world.view().len() == n,
                    0 <= i < n,
                    m == hits_seq.len(),
                    j <= m,
                    hits@ == hits_seq,
                    w0[i as int].hurtbox is Some,
                    w0[i as int].health is Some,
                    hits_seq == (w0[i as int].hurtbox->0).hit_by_entities@,
                    forall|k: int|
                        0 <= k < n ==> #[trigger] world.view()[k].id == w0[k].id
                            && crate::store::opt_hitbox_equiv(w0[k].hitbox, world.view()[k].hitbox),
                    cur == clamp0((w0[i as int].health->0).health - sum_damage(
                        w0,
                        hits_seq.subrange(0, j as int),
                    )),
                    0 <= cur,
                    fix_ok(cur as int),
                    damaged == any_damaging(w0, hits_seq.subrange(0, j as int)),
                    flash.wf(),
                    flash.remaining() == if damaged {
                        HIT_FLASH_DURATION_MILLIS as int
                    } else {
                        stepped
                    },
                decreases m - j,
            {
                let e = hits[j];
                proof {
                    assert(hits_seq[j as int] == e);
                    assert(exists|k: int| 0 <= k < w0.len() && w0[k].id == e && w0[k].hitbox is Some);
                }
                let found = world.find(e);
                let k: usize = match found {
                    Option::Some(k) => k,
                    Option::None => {
                        proof {
                            let kk = choose|kk: int|
                                0 <= kk < w0.len() && w0[kk].id == e && w0[kk].hitbox is Some;
                            assert(world.view()[kk].id == e);
                            assert(world.has_id(e));
                        }
                        vstd::pervasive::unreached()
                    },
                };
                let ghost kk = choose|kk: int|
                    0 <= kk < w0.len() && w0[kk].id == e && w0[kk].hitbox is Some;
                proof {
                    assert(world.view()[kk].id == w0[kk].id);
                    lemma_id_unique(world.view(), k as int, kk);
                    assert(world.view()[k as int].hitbox is Some);
                }
                let eff: HitboxEffect = match &world.get(k).hitbox {
                    Option::Some(h) => h.effect,
                    Option::None => vstd::pervasive::unreached(),
                };
                proof {
                    assert(hit_effect(w0, e) == (w0[kk].hitbox->0).effect);
                    assert((world.view()[k as int].hitbox->0).effect == (w0[kk].hitbox->0).effect);
                }
                match eff {
                    HitboxEffect::Damage(d) => {
                        proof {
                            assert(crate::hitbox::effect_ok((w0[kk].hitbox->0).effect));
                        }
                        let nc: i64 = cur - d;
                        cur = if nc > 0 {
                            nc
                        } else {
                            0
                        };
                        flash.reset(HIT_FLASH_DURATION_MILLIS);
                        damaged = true;
                    },
                    HitboxEffect::Inert => {},
                    HitboxEffect::StationDock => {},
                }
                proof {
                    let pre = hits_seq.subrange(0, j as int);
                    let post = hits_seq.subrange(0, j as int + 1);
                    assert(post.drop_last() =~= pre);
                    assert(post.last() == e);
                    assert(sum_damage(w0, post) == sum_damage(w0, pre) + hit_damage(w0, e));
                    assert(any_damaging(w0, post) == (any_damaging(w0, pre) || hit_effect(w0, e)
                        is Damage));
                }
                j = j + 1;
            }
            proof {
                assert(hits_seq.subrange(0, m as int) =~= hits_seq);
            }
            rec.health = Option::Some(HealthComponent { health: cur, hit_flash: flash });
            let id = rec.id;
            world.set(i, rec);
            if cur == 0 {
                let ghost pre = cmd.removes@;
                cmd.remove(id);
                proof {
                    let p = |e: Entity| damage_removal_justified(e, w0);
                    assert(p(id)) by {
                        assert(id == w0[i as int].id && damageable(w0[i as int]) && damaged_health(
                            w0[i as int],
                            w0,
                        ) == 0);
                        assert(damage_removal_justified(id, w0));
                    }
                    lemma_removes_extend(pre, cmd.removes@, old(cmd).removes@.len() as int, p, id);
                }
            }
        }
        i = i + 1;
    }
}

} // verus!
