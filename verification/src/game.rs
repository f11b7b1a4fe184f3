//! The fixed-step scheduler: owns the entity store, the spatial index, the
//! shared deterministic random generator and the per-tick resources, and
//! runs the ordered system pipelines.

use vstd::prelude::*;
use vstd::seq_lib::*;
use crate::bullet::{lifespan, lifespan_elapses, lifespan_rel, remove_on_hit, remove_on_hit_rel};
use crate::dbvt::Dbvt;
use crate::health::{damage, damage_rel, damaged_health, damageable, hit_by_resolved};
use crate::hitbox::{collide_rel, hitbox};
use crate::interpolate::interp_rec;
use crate::physics::{physics, physics_rel};
use crate::player::{
    act_rel, bullet_matches, plan_rel, player_act, player_plan, player_react, react_rel,
    spawn_justified,
};
use crate::reflect::{reflect_rel, reflect_within};
use crate::resource::{input_ok, CollideCounters, GuiOverride, GuiOverrideQueue, Input, Subframe, Time};
use crate::rng::{os_entropy_u64, pcg_from_seed, pcg_next_u32};
use crate::store::{
    assign_ids, rec_equiv, surviving, with_id, CommandBuffer, Entity, EntityRec, World,
};

verus! {

/// The seed used when no operating-system entropy can be obtained:
/// determinism with a placeholder seed is preferable to failing startup.
pub const DEFAULT_SEED: u64 = 0;

/// One full tick of the step pipeline, stated end to end: there are
/// intermediate worlds and command lists, one per pass, linked by the pass
/// relations in their declared order — intent, integration, reflection,
/// action, hit resolution, reaction, damage, lifespan, remove-on-hit — and
/// the final world is the survivors of the collected removal list followed
/// by the spawned records under fresh identifiers.
pub open spec fn step_rel(
    w0: Seq<EntityRec>,
    nid0: int,
    input: Input,
    dt: int,
    fin: Seq<EntityRec>,
    nid1: int,
    q0: Seq<GuiOverride>,
    q1: Seq<GuiOverride>,
) -> bool {
    exists|
        w1: Seq<EntityRec>,
        w2: Seq<EntityRec>,
        w3: Seq<EntityRec>,
        w4: Seq<EntityRec>,
        w5: Seq<EntityRec>,
        w6: Seq<EntityRec>,
        w7: Seq<EntityRec>,
        spawns: Seq<EntityRec>,
        ra: Seq<Entity>,
        rb: Seq<Entity>,
        rc: Seq<Entity>,
    |
        #![trigger
            plan_rel(w0, w1, input, dt),
            physics_rel(w1, w2, dt),
            reflect_rel(w2, w3),
            act_rel(w3, Seq::<EntityRec>::empty(), spawns),
            collide_rel(w3, w4),
            react_rel(w4, w5, q0, q1),
            damage_rel(w5, w6, dt, Seq::<Entity>::empty(), ra),
            lifespan_rel(w6, w7, dt, ra, rb),
            remove_on_hit_rel(w7, rb, rc)
        ]
        {
            &&& plan_rel(w0, w1, input, dt)
            &&& physics_rel(w1, w2, dt)
            &&& reflect_rel(w2, w3)
            &&& act_rel(w3, Seq::<EntityRec>::empty(), spawns)
            &&& collide_rel(w3, w4)
            &&& react_rel(w4, w5, q0, q1)
            &&& damage_rel(w5, w6, dt, Seq::<Entity>::empty(), ra)
            &&& lifespan_rel(w6, w7, dt, ra, rb)
            &&& remove_on_hit_rel(w7, rb, rc)
            &&& fin == surviving(w7, rc) + assign_ids(spawns, nid0)
            &&& nid1 == nid0 + spawns.len()
        }
}

/// The simulation: the entity store, the collision index, the shared
/// deterministic random generator, diagnostic counters, and the override
/// queue for the collaborating GUI.
pub struct Game {
    pub rng: rand_pcg::Pcg32,
    pub world: World,
    pub is_paused: bool,
    pub dbvt: Dbvt,
    pub counters: CollideCounters,
    pub gui_override_queue: GuiOverrideQueue,
}

impl Game {
    /// The store and the index are well-formed.
    pub open spec fn wf(self) -> bool {
        self.world.wf() && self.dbvt.wf()
    }

    /// A fresh, empty, unpaused game. The generator is seeded from
    /// operating-system entropy, falling back to a fixed default seed when
    /// no entropy can be obtained.
    pub fn new() -> (g: Game)
        ensures
            g.wf(),
            g.world.view() == Seq::<EntityRec>::empty(),
            !g.is_paused,
            g.gui_override_queue@ == Seq::<GuiOverride>::empty(),
    {
        let seed: u64 = match os_entropy_u64() {
            Option::Some(s) => s,
            Option::None => DEFAULT_SEED,
        };
        Game {
            rng: pcg_from_seed(seed),
            world: World::new(),
            is_paused: false,
            dbvt: Dbvt::new(),
            counters: CollideCounters::default(),
            gui_override_queue: GuiOverrideQueue::new(),
        }
    }

    /// Read access to the entity store for collaborators.
    pub fn world(&self) -> (r: &World)
        ensures
            r == &self.world,
    {
        &self.world
    }

    /// Mutable access to the entity store, for scene construction.
    pub fn world_mut(&mut self) -> (r: &mut World) {
        &mut self.world
    }

    /// Mutable access to the deterministic random generator, for scene
    /// construction.
    pub fn rng_mut(&mut self) -> (r: &mut rand_pcg::Pcg32) {
        &mut self.rng
    }

    /// Mutable access to both the generator and the store at once.
    pub fn rng_and_world_mut(&mut self) -> (r: (&mut rand_pcg::Pcg32, &mut World)) {
        (&mut self.rng, &mut self.world)
    }

    /// The override event queue for the collaborating GUI to drain.
    pub fn gui_override_queue(&mut self) -> (r: &mut GuiOverrideQueue) {
        &mut self.gui_override_queue
    }

    /// Whether the simulation is paused; pausing is the driver's concern
    /// and `step` itself never reads it.
    pub fn is_paused(&self) -> (r: bool)
        ensures
            r == self.is_paused,
    {
        self.is_paused
    }

    /// Set or clear the paused flag.
    pub fn set_is_paused(&mut self, is_paused: bool)
        ensures
            final(self).is_paused == is_paused,
            final(self).world == old(self).world,
            final(self).dbvt == old(self).dbvt,
            final(self).gui_override_queue == old(self).gui_override_queue,
            final(self).counters == old(self).counters,
            final(self).rng == old(self).rng,
    {
        self.is_paused = is_paused;
    }

    /// The latest tick's diagnostic counters.
    pub fn collide_counters(&self) -> (r: &CollideCounters)
        ensures
            r == &self.counters,
    {
        &self.counters
    }

    /// Remove every entity and un-pause. Scene setup is then the
    /// collaborator's responsibility.
    pub fn reset(&mut self)
        requires
            old(self).wf(),
        ensures
            final(self).wf(),
            final(self).world.view() == Seq::<EntityRec>::empty(),
            !final(self).is_paused,
            final(self).dbvt == old(self).dbvt,
            final(self).gui_override_queue == old(self).gui_override_queue,
            final(self).rng == old(self).rng,
            final(self).counters == old(self).counters,
    {
        self.is_paused = false;
        self.world.clear();
    }

    /// Run one full ordered pass of the step pipeline: player intent,
    /// physics integration, boundary reflection, player action, hit
    /// resolution, player reaction, damage, lifespan, and remove-on-hit,
    /// then apply the deferred command buffer atomically.
    ///
    /// After a step, no surviving damageable entity is at zero health and
    /// no surviving lifespan has run out: such entities were queued and
    /// removed within the same tick. A step of an empty world is a no-op.
    pub fn step(&mut self, elapsed_millis: u32, input: Input)
        requires
            old(self).wf(),
            input_ok(input),
            1 <= elapsed_millis,
            old(self).world.next_id() + old(self).world.view().len() < u64::MAX as int,
        ensures
            final(self).wf(),
            final(self).is_paused == old(self).is_paused,
            step_rel(
                old(self).world.view(),
                old(self).world.next_id(),
                input,
                elapsed_millis as int,
                final(self).world.view(),
                final(self).world.next_id(),
                old(self).gui_override_queue@,
                final(self).gui_override_queue@,
            ),
            forall|i: int|
                0 <= i < final(self).world.view().len() ==> {
                    let x = #[trigger] final(self).world.view()[i];
                    x.health is Some && x.hurtbox is Some ==> (x.health->0).health > 0
                },
            forall|i: int|
                0 <= i < final(self).world.view().len() ==> {
                    let x = #[trigger] final(self).world.view()[i];
                    x.lifespan is Some ==> (x.lifespan->0).0.remaining() > 0
                },
            old(self).world.view().len() == 0 ==> final(self).world.view()
                == Seq::<EntityRec>::empty() && final(self).gui_override_queue@ == old(
                self,
            ).gui_override_queue@,
    {
        let time = Time { elapsed_millis };
        let mut cmd = CommandBuffer::new();
        let ghost w0 = self.world.view();
        let ghost nid0 = self.world.next_id();
        let ghost q0 = self.gui_override_queue@;
        let ghost dt = elapsed_millis as int;
        let ghost n0 = self.world.view().len();
        player_plan(&mut self.world, &time, &input);
        let ghost w_a = self.world.view();
        physics(&mut self.world, &time);
        let ghost w_b = self.world.view();
        reflect_within(&mut self.world);
        player_act(&self.world, &mut cmd);
        let ghost w_act = self.world.view();
        let ghost spawns_act = cmd.spawns@;
        let tick_word = pcg_next_u32(&mut self.rng);
        hitbox(&mut self.world, &mut self.dbvt, tick_word, &mut self.counters);
        let ghost w_d = self.world.view();
        player_react(&mut self.world, &mut self.gui_override_queue);
        let ghost w_e = self.world.view();
        proof {
            assert(hit_by_resolved(w_e)) by {
                assert forall|i: int, jj: int|
                    0 <= i < w_e.len() && w_e[i].hurtbox is Some && 0 <= jj < (
                    w_e[i].hurtbox->0).hit_by_entities@.len() implies exists|k: int|
                    0 <= k < w_e.len() && w_e[k].id == (
                    #[trigger] (w_e[i].hurtbox->0).hit_by_entities@[jj]) && w_e[k].hitbox
                        is Some by {
                    assert(crate::store::colliders_equiv(w_d[i], w_e[i]));
                    let e = (w_e[i].hurtbox->0).hit_by_entities@[jj];
                    assert((w_d[i].hurtbox->0).hit_by_entities@[jj] == e);
                    let k = choose|k: int|
                        0 <= k < w_d.len() && w_d[k].id == (
                        #[trigger] (w_d[i].hurtbox->0).hit_by_entities@[jj]) && w_d[k].hitbox
                            is Some;
                    assert(crate::store::colliders_equiv(w_d[k], w_e[k]));
                    assert(0 <= k < w_e.len() && w_e[k].id == e && w_e[k].hitbox is Some);
                }
            }
        }
        damage(&mut self.world, &time, &mut cmd);
        let ghost w_f = self.world.view();
        let ghost removes_dmg = cmd.removes@;
        lifespan(&mut self.world, &time, &mut cmd);
        let ghost w_g = self.world.view();
        let ghost removes_g = cmd.removes@;
        remove_on_hit(&self.world, &mut cmd);
        let ghost removes_final = cmd.removes@;
        let ghost spawns_final = cmd.spawns@;
        let ghost base = self.world.next_id();
        proof {
            assert(spawns_final == spawns_act);
            assert(w_g.len() == n0 && self.world.next_id() == old(self).world.next_id());
        }
        self.world.apply(cmd);
        proof {
            let s = surviving(w_g, removes_final);
            let a = assign_ids(spawns_final, base);
            let fin = self.world.view();
            assert(fin == s + a);
            assert forall|i: int|
                0 <= i < fin.len() implies {
                let x = #[trigger] fin[i];
                &&& (x.health is Some && x.hurtbox is Some ==> (x.health->0).health > 0)
                &&& (x.lifespan is Some ==> (x.lifespan->0).0.remaining() > 0)
            } by {
                let x = fin[i];
                assert(crate::store::rec_ok(x));
                if i < s.len() {
                    assert(s[i] == x);
                    w_g.lemma_filter_pred(|r: EntityRec| !removes_final.contains(r.id), i);
                    assert(!removes_final.contains(x.id));
                    w_g.lemma_filter_contains_rev(
                        |r: EntityRec| !removes_final.contains(r.id),
                        x,
                    );
                    let k = choose|k: int| 0 <= k < w_g.len() && w_g[k] == x;
                    assert(crate::bullet::equiv_but_lifespan(w_f[k], w_g[k]));
                    assert(crate::health::equiv_but_health(w_e[k], w_f[k]));
                    assert(x.id == w_f[k].id && w_f[k].id == w_e[k].id);
                    if x.health is Some && x.hurtbox is Some {
                        assert(w_f[k].health == x.health && w_f[k].hurtbox is Some);
                        assert(damageable(w_e[k]));
                        if (x.health->0).health == 0 {
                            assert(w_f[k].health matches Option::Some(h2) && h2.health
                                == damaged_health(w_e[k], w_e));
                            assert(damaged_health(w_e[k], w_e) == 0);
                            assert(removes_dmg.contains(w_e[k].id));
                            lemma_prefix_contains(removes_dmg, removes_g, x.id);
                            lemma_prefix_contains(removes_g, removes_final, x.id);
                            assert(false);
                        }
                        assert((x.health->0).health > 0) by {
                            assert(crate::health::health_ok(x.health->0));
                        }
                    }
                    if x.lifespan is Some {
                        assert(w_f[k].lifespan is Some);
                        if (x.lifespan->0).0.remaining() == 0 {
                            let t = w_f[k].lifespan->0;
                            assert(x.lifespan matches Option::Some(t2) && t2.0.remaining() == if t.0.remaining()
                                - time.elapsed_millis >= 0 {
                                t.0.remaining() - time.elapsed_millis
                            } else {
                                0
                            });
                            assert(lifespan_elapses(w_f[k], time.elapsed_millis as int));
                            assert(removes_g.contains(w_f[k].id));
                            lemma_prefix_contains(removes_g, removes_final, x.id);
                            assert(false);
                        }
                        assert((x.lifespan->0).0.wf());
                        assert((x.lifespan->0).0.remaining() > 0);
                    }
                } else {
                    assert(a[i - s.len()] == x);
                    let b = spawns_final[i - s.len()];
                    assert(x == with_id(b, Entity((base + i - s.len()) as u64)));
                    assert(spawn_justified(b, w_act));
                    let sk = choose|sk: int|
                        0 <= sk < w_act.len() && crate::player::shooter(#[trigger] w_act[sk])
                            && bullet_matches(b, w_act[sk]);
                    assert(bullet_matches(b, w_act[sk]));
                    assert(b.health is None);
                    assert(b.lifespan matches Option::Some(l) && l.0.remaining()
                        == crate::player::BULLET_LIFESPAN_MILLIS as int);
                }
            }
            if n0 == 0 {
                reveal_with_fuel(Seq::filter, 2);
                assert(w_g.len() == 0);
                assert(s.len() == 0) by {
                    w_g.lemma_filter_len(|r: EntityRec| !removes_final.contains(r.id));
                }
                if spawns_act.len() > 0 {
                    assert(spawn_justified(spawns_act[0], w_act));
                    let sk = choose|sk: int|
                        0 <= sk < w_act.len() && crate::player::shooter(#[trigger] w_act[sk])
                            && bullet_matches(spawns_act[0], w_act[sk]);
                    assert(false);
                }
                assert(a.len() == 0);
                assert(fin =~= Seq::<EntityRec>::empty());
            }
            assert(plan_rel(w0, w_a, input, dt));
            assert(physics_rel(w_a, w_b, dt));
            assert(reflect_rel(w_b, w_act));
            assert(act_rel(w_act, Seq::<EntityRec>::empty(), spawns_act));
            assert(collide_rel(w_act, w_d));
            assert(react_rel(w_d, w_e, q0, self.gui_override_queue@));
            assert(damage_rel(w_e, w_f, dt, Seq::<Entity>::empty(), removes_dmg));
            assert(lifespan_rel(w_f, w_g, dt, removes_dmg, removes_g));
            assert(remove_on_hit_rel(w_g, removes_g, removes_final));
            assert(base == nid0);
            assert(fin == surviving(w_g, removes_final) + assign_ids(spawns_final, nid0));
            assert(self.world.next_id() == nid0 + spawns_final.len());
            assert(step_rel(
                w0,
                nid0,
                input,
                dt,
                fin,
                self.world.next_id(),
                q0,
                self.gui_override_queue@,
            ));
        }
    }

    /// Run only the interpolation pass: write the render-facing position of
    /// every entity with Position and interpolation state, reading the
    /// positions captured by the last step. Gameplay state is untouched,
    /// and repeating the call with the same subframe changes nothing.
    pub fn interpolate(&mut self, subframe: Subframe)
        requires
            old(self).wf(),
            subframe.0 < 1000,
        ensures
            final(self).wf(),
            final(self).is_paused == old(self).is_paused,
            final(self).rng == old(self).rng,
            final(self).dbvt == old(self).dbvt,
            final(self).counters == old(self).counters,
            final(self).gui_override_queue == old(self).gui_override_queue,
            final(self).world.view().len() == old(self).world.view().len(),
            final(self).world.next_id() == old(self).world.next_id(),
            forall|i: int|
                0 <= i < old(self).world.view().len() ==> rec_equiv(
                    interp_rec(old(self).world.view()[i], subframe.0 as int),
                    #[trigger] final(self).world.view()[i],
                ),
    {
        crate::interpolate::interpolate(&mut self.world, &subframe);
    }
}

/// An element of a preserved prefix is still in the longer list.
proof fn lemma_prefix_contains(pre: Seq<Entity>, post: Seq<Entity>, e: Entity)
    requires
        pre.len() <= post.len(),
        post.subrange(0, pre.len() as int) == pre,
        pre.contains(e),
    ensures
        post.contains(e),
{
    let idx = choose|idx: int| 0 <= idx < pre.len() && pre[idx] == e;
    assert(post.subrange(0, pre.len() as int)[idx] == e);
    assert(post[idx] == e);
}

} // verus!