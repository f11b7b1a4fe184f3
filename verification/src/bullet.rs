//! Lifespan countdowns and single-use projectile markers, and the removal
//! passes that consume them.

use vstd::prelude::*;
use crate::resource::Time;
use crate::store::{dup_rec, rec_equiv, CommandBuffer, Entity, EntityRec, World};
use crate::timer::Timer;

verus! {

/// A countdown after which the entity is removed.
#[derive(Clone, Copy, Debug)]
pub struct LifespanComponent(pub Timer);

/// Marks an entity for removal at end of tick if its hitbox struck
/// anything this tick; used for single-use projectiles.
#[derive(Clone, Copy, Debug)]
pub struct RemoveOnHitComponent;

/// The record's lifespan countdown runs out this tick.
pub open spec fn lifespan_elapses(o: EntityRec, dt: int) -> bool {
    o.lifespan is Some && (o.lifespan->0).0.remaining() - dt <= 0
}

/// Some live entity has identifier `e` and a lifespan that runs out this
/// tick; only such identifiers may be queued by the lifespan pass.
pub open spec fn lifespan_removal_justified(e: Entity, w: Seq<EntityRec>, dt: int) -> bool {
    exists|k: int| 0 <= k < w.len() && e == w[k].id && lifespan_elapses(w[k], dt)
}

/// Some live entity has identifier `e`, carries the RemoveOnHit marker,
/// and its hitbox struck something this tick; only such identifiers may be
/// queued by the remove-on-hit pass.
pub open spec fn hit_removal_justified(e: Entity, w: Seq<EntityRec>) -> bool {
    exists|k: int|
        0 <= k < w.len() && e == w[k].id && w[k].remove_on_hit is Some && w[k].hitbox is Some && (
        w[k].hitbox->0).hit_entities@.len() > 0
}

/// All fields but the lifespan agree between the two records.
pub open spec fn equiv_but_lifespan(a: EntityRec, b: EntityRec) -> bool {
    &&& b.id == a.id
    &&& b.pos == a.pos
    &&& b.interpolate == a.interpolate
    &&& b.vel == a.vel
    &&& b.force == a.force
    &&& b.mass == a.mass
    &&& crate::store::colliders_equiv(a, b)
    &&& b.health == a.health
    &&& b.remove_on_hit == a.remove_on_hit
    &&& b.player == a.player
    &&& b.reflect_within == a.reflect_within
}

/// What the lifespan pass does to one record, as a relation: the
/// countdown advances by the elapsed time, clamping at zero; everything
/// else is untouched.
pub open spec fn lifespan_rec_rel(o: EntityRec, m: EntityRec, dt: int) -> bool {
    &&& equiv_but_lifespan(o, m)
    &&& match o.lifespan {
        Option::Some(t) => m.lifespan matches Option::Some(t2) && t2.0.remaining() == if t.0.remaining()
            - dt >= 0 {
            t.0.remaining() - dt
        } else {
            0
        },
        Option::None => m.lifespan is None,
    }
}

/// The lifespan pass as a relation between the world and the removal list
/// before and after: each countdown advances by `lifespan_rec_rel`, every
/// countdown that runs out queues its entity, and only such entities are
/// queued.
pub open spec fn lifespan_rel(
    w0: Seq<EntityRec>,
    w1: Seq<EntityRec>,
    dt: int,
    r0: Seq<Entity>,
    r1: Seq<Entity>,
) -> bool {
    &&& w1.len() == w0.len()
    &&& r0.len() <= r1.len()
    &&& r1.subrange(0, r0.len() as int) == r0
    &&& forall|i: int| 0 <= i < w0.len() ==> lifespan_rec_rel(w0[i], #[trigger] w1[i], dt)
    &&& forall|i: int|
        0 <= i < w0.len() && lifespan_elapses(#[trigger] w0[i], dt) ==> r1.contains(w0[i].id)
    &&& forall|j: int|
        r0.len() <= j < r1.len() ==> lifespan_removal_justified(#[trigger] r1[j], w0, dt)
}

/// The remove-on-hit pass as a relation between the (unchanged) world and
/// the removal list before and after: every marked entity whose hitbox
/// struck something is queued, and only such entities are queued.
pub open spec fn remove_on_hit_rel(w: Seq<EntityRec>, r0: Seq<Entity>, r1: Seq<Entity>) -> bool {
    &&& r0.len() <= r1.len()
    &&& r1.subrange(0, r0.len() as int) == r0
    &&& forall|i: int|
        0 <= i < w.len() && w[i].remove_on_hit is Some && w[i].hitbox is Some && (
        #[trigger] w[i].hitbox->0).hit_entities@.len() > 0 ==> r1.contains(w[i].id)
    &&& forall|j: int| r0.len() <= j < r1.len() ==> hit_removal_justified(#[trigger] r1[j], w)
}

/// Lifespan: advance every lifespan countdown by the elapsed time; a
/// countdown that runs out queues its entity for removal. Nothing else in
/// the world changes, and nothing else is queued.
pub fn lifespan(world: &mut World, time: &Time, cmd: &mut CommandBuffer)
    requires
        old(world).wf(),
        old(cmd).wf(),
    ensures
        final(world).wf(),
        final(world).next_id() == old(world).next_id(),
        final(cmd).wf(),
        final(cmd).spawns@ == old(cmd).spawns@,
        lifespan_rel(
            old(world).view(),
            final(world).view(),
            time.elapsed_millis as int,
            old(cmd).removes@,
            final(cmd).removes@,
        ),
{
    let n = world.len();
    let mut i: usize = 0;
    while i < n
        invariant
            world.wf(),
            cmd.wf(),
            n == old(world).view().len(),
            world.view().len() == n,
            world.next_id() == old(world).next_id(),
            i <= n,
            cmd.spawns@ == old(cmd).spawns@,
            old(cmd).removes@.len() <= cmd.removes@.len(),
            cmd.removes@.subrange(0, old(cmd).removes@.len() as int) == old(cmd).removes@,
            forall|j: int|
                0 <= j < i ==> lifespan_rec_rel(
                    old(world).view()[j],
                    #[trigger] world.view()[j],
                    time.elapsed_millis as int,
                ),
            forall|j: int| i <= j < n ==> #[trigger] world.view()[j] == old(world).view()[j],
            forall|j: int|
                0 <= j < i && lifespan_elapses(old(world).view()[j], time.elapsed_millis as int)
                    ==> cmd.removes@.contains(#[trigger] old(world).view()[j].id),
            forall|j: int|
                old(cmd).removes@.len() <= j < cmd.removes@.len() ==> lifespan_removal_justified(
                    #[trigger] cmd.removes@[j],
                    old(world).view(),
                    time.elapsed_millis as int,
                ),
        decreases n - i,
    {
        let has = {
            let r = world.get(i);
            r.lifespan.is_some()
        };
        if has {
            let mut rec = dup_rec(world.get(i));
            let mut t: Timer = match rec.lifespan {
                Option::Some(l) => l.0,
                Option::None => vstd::pervasive::unreached(),
            };
            let elapsed = t.step_and_is_elapsed(time);
            rec.lifespan = Option::Some(LifespanComponent(t));
            let id = rec.id;
            world.set(i, rec);
            if elapsed {
                let ghost pre = cmd.removes@;
                cmd.remove(id);
                proof {
                    let p = |e: Entity|
                        lifespan_removal_justified(e, old(world).view(), time.elapsed_millis as int);
                    assert(p(id)) by {
                        assert(id == old(world).view()[i as int].id && lifespan_elapses(
                            old(world).view()[i as int],
                            time.elapsed_millis as int,
                        ));
                        assert(lifespan_removal_justified(
                            id,
                            old(world).view(),
                            time.elapsed_millis as int,
                        ));
                    }
                    crate::store::lemma_removes_extend(
                        pre,
                        cmd.removes@,
                        old(cmd).removes@.len() as int,
                        p,
                        id,
                    );
                }
            }
        }
        i = i + 1;
    }
}

/// Remove-on-hit: queue for removal every entity marked RemoveOnHit whose
/// hitbox struck anything this tick. The world itself is untouched.
pub fn remove_on_hit(world: &World, cmd: &mut CommandBuffer)
    requires
        old(cmd).wf(),
    ensures
        final(cmd).wf(),
        final(cmd).spawns@ == old(cmd).spawns@,
        remove_on_hit_rel(world.view(), old(cmd).removes@, final(cmd).removes@),
{
    let n = world.len();
    let mut i: usize = 0;
    while i < n
        invariant
            cmd.wf(),
            n == world.view().len(),
            i <= n,
            cmd.spawns@ == old(cmd).spawns@,
            old(cmd).removes@.len() <= cmd.removes@.len(),
            cmd.removes@.subrange(0, old(cmd).removes@.len() as int) == old(cmd).removes@,
            forall|j: int|
                0 <= j < i && world.view()[j].remove_on_hit is Some && world.view()[j].hitbox
                    is Some && (world.view()[j].hitbox->0).hit_entities@.len() > 0 ==> cmd.removes@.contains(
                    #[trigger] world.view()[j].id,
                ),
            forall|j: int|
                old(cmd).removes@.len() <= j < cmd.removes@.len() ==> hit_removal_justified(
                    #[trigger] cmd.removes@[j],
                    world.view(),
                ),
        decreases n - i,
    {
        let r = world.get(i);
        let hit = r.remove_on_hit.is_some() && match &r.hitbox {
            Option::Some(h) => h.hit_entities.len() > 0,
            Option::None => false,
        };
        let id = r.id;
        if hit {
            let ghost pre = cmd.removes@;
            cmd.remove(id);
            proof {
                let p = |e: Entity| hit_removal_justified(e, world.view());
                assert(p(id)) by {
                    assert(id == world.view()[i as int].id && world.view()[i as int].remove_on_hit
                        is Some && world.view()[i as int].hitbox is Some && (world.view()[i as int].hitbox->0).hit_entities@.len()
                        > 0);
                    assert(hit_removal_justified(id, world.view()));
                }
                crate::store::lemma_removes_extend(
                    pre,
                    cmd.removes@,
                    old(cmd).removes@.len() as int,
                    p,
                    id,
                );
            }
        }
        i = i + 1;
    }
}

} // verus!
