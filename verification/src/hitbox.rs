//! Attacking and damageable colliders, their per-tick hit bookkeeping, and
//! the hit-resolution pass: broad phase through the bounding-volume tree,
//! mask filtering, exact narrow phase, and two-sided hit-list recording.

use vstd::prelude::*;
use crate::store::lemma_push_contains;
use crate::collision::{bound_at, compute_bound, shape_ok, shapes_intersect, Aabb, Shape};
use crate::dbvt::{hits, query_filter, Dbvt};
use crate::fix::fix_ok;
use crate::leaf::{has_key, leaf_data, lemma_has_key_contains, LeafData};
use crate::resource::{bump, CollideCounters};
use crate::store::{
    dup_rec, lemma_id_unique, rec_ok, Entity, EntityRec, World,
};

verus! {

broadcast use lemma_push_contains;

/// A bitset of collider categories. Two masks interact when they share a
/// bit.
#[derive(Clone, Copy, Debug, PartialEq, Eq, Structural)]
pub struct HitboxMask(pub u32);

impl HitboxMask {
    /// The category of destructible practice targets.
    pub fn target() -> (m: HitboxMask)
        ensures
            m.0 == 1u32,
    {
        HitboxMask(1)
    }

    /// The category of player ships.
    pub fn player() -> (m: HitboxMask)
        ensures
            m.0 == 2u32,
    {
        HitboxMask(2)
    }

    /// Whether the two masks share at least one category bit.
    pub fn overlaps(self, rhs: HitboxMask) -> (r: bool)
        ensures
            r == ((self.0 & rhs.0) != 0),
    {
        (self.0 & rhs.0) != 0
    }
}

/// What a hitbox does to the hurtboxes it strikes.
#[derive(Clone, Copy, Debug)]
pub enum HitboxEffect {
    /// Strikes are recorded but have no further effect.
    Inert,
    /// Subtract the given fixed amount from the struck entity's health.
    Damage(i64),
    /// Trigger docking for a striking player.
    StationDock,
}

/// A damage amount is non-negative and representable.
pub open spec fn effect_ok(e: HitboxEffect) -> bool {
    match e {
        HitboxEffect::Inert => true,
        HitboxEffect::Damage(d) => 0 <= d && fix_ok(d as int),
        HitboxEffect::StationDock => true,
    }
}

impl Default for HitboxEffect {
    fn default() -> (e: HitboxEffect)
        ensures
            e is Inert,
    {
        HitboxEffect::Inert
    }
}

/// A collider that inflicts its effect on overlapping hurtboxes.
#[derive(Clone, Debug)]
pub struct HitboxComponent {
    // Attributes.
    pub shape: Shape,
    pub dbvt_index: Option<u64>,
    pub mask: HitboxMask,
    pub effect: HitboxEffect,
    // Intra-frame state.
    pub hit_entities: Vec<Entity>,
}

/// The hitbox's shape and effect are representable.
pub open spec fn hitbox_ok(h: HitboxComponent) -> bool {
    shape_ok(h.shape) && effect_ok(h.effect)
}

/// A collider that receives effects from overlapping hitboxes.
#[derive(Clone, Debug)]
pub struct HurtboxComponent {
    // Attributes.
    pub shape: Shape,
    pub dbvt_index: Option<u64>,
    pub mask: HitboxMask,
    // Intra-frame state.
    pub hit_by_entities: Vec<Entity>,
}

/// The hurtbox's shape is representable.
pub open spec fn hurtbox_ok(h: HurtboxComponent) -> bool {
    shape_ok(h.shape)
}

/// The collision margin each hitbox bound is expanded by, in milli-units,
/// so that small movements do not force a tree restructure every tick.
pub const COLLISION_MARGIN: i64 = 25000;

/// The record is a collidable attacker: it has a position and a hitbox.
pub open spec fn live_hitbox(o: EntityRec) -> bool {
    o.pos is Some && o.hitbox is Some
}

/// The record is a collidable receiver: it has a position and a hurtbox.
pub open spec fn live_hurtbox(o: EntityRec) -> bool {
    o.pos is Some && o.hurtbox is Some
}

/// The margin-expanded bound of the record's hitbox at its position.
pub open spec fn hb_fat_bound(o: EntityRec) -> Aabb {
    bound_at((o.hitbox->0).shape, (o.pos->0).0, COLLISION_MARGIN as int)
}

/// Every leaf of the index belongs to a live hitbox entity and carries
/// exactly that entity's current margin-expanded bound.
pub open spec fn tree_live(w: Seq<EntityRec>, leaves: Seq<LeafData>) -> bool {
    forall|x: LeafData| #[trigger]
        leaves.contains(x) ==> exists|i: int|
            0 <= i < w.len() && live_hitbox(#[trigger] w[i]) && x == leaf_data(
                w[i].id.0,
                hb_fat_bound(w[i]),
            )
}

/// The two masks share a category bit.
pub open spec fn masks_interact(a: HitboxMask, b: HitboxMask) -> bool {
    (a.0 & b.0) != 0
}

/// The hitbox of `hit` and the hurtbox of `hurt` interact: their masks
/// share a bit and their shapes intersect at the current positions.
pub open spec fn pair_hits(hit: EntityRec, hurt: EntityRec) -> bool {
    &&& masks_interact((hurt.hurtbox->0).mask, (hit.hitbox->0).mask)
    &&& shapes_intersect(
        (hurt.hurtbox->0).shape,
        (hurt.pos->0).0,
        (hit.hitbox->0).shape,
        (hit.pos->0).0,
    )
}

/// Every recorded strike is real: each entry of a hit list names a live,
/// distinct counterpart whose masks share a bit and whose shape intersects
/// the recorder's, so overlapping colliders with disjoint masks never
/// register, whatever their geometry.
pub open spec fn hit_lists_sound(w: Seq<EntityRec>) -> bool {
    &&& forall|i: int, e: Entity|
        0 <= i < w.len() && w[i].hitbox is Some && #[trigger] (w[i].hitbox->0).hit_entities@.contains(
            e,
        ) ==> exists|b: int|
            0 <= b < w.len() && (#[trigger] w[b]).id == e && live_hurtbox(w[b]) && live_hitbox(
                w[i],
            ) && e != w[i].id && pair_hits(w[i], w[b])
    &&& forall|j: int, e: Entity|
        0 <= j < w.len() && w[j].hurtbox is Some && #[trigger] (w[j].hurtbox->0).hit_by_entities@.contains(
            e,
        ) ==> exists|a: int|
            0 <= a < w.len() && (#[trigger] w[a]).id == e && live_hitbox(w[a]) && live_hurtbox(
                w[j],
            ) && e != w[j].id && pair_hits(w[a], w[j])
}

/// Hit bookkeeping is two-sided: hitbox `i` lists hurtbox `j` exactly when
/// hurtbox `j` lists hitbox `i`.
pub open spec fn hit_lists_symmetric(w: Seq<EntityRec>) -> bool {
    forall|i: int, j: int|
        0 <= i < w.len() && 0 <= j < w.len() && (#[trigger] w[i]).hitbox is Some && (
        #[trigger] w[j]).hurtbox is Some ==> ((w[i].hitbox->0).hit_entities@.contains(w[j].id) <==> (
        w[j].hurtbox->0).hit_by_entities@.contains(w[i].id))
}

/// Hit bookkeeping is complete: every pair of a live hitbox and a distinct
/// live hurtbox whose masks share a bit and whose shapes intersect is
/// recorded in the hitbox's hit list (and so, by symmetry, in the
/// hurtbox's hit-by list).
pub open spec fn hit_lists_complete(w: Seq<EntityRec>) -> bool {
    forall|a: int, b: int|
        0 <= a < w.len() && 0 <= b < w.len() && a != b && live_hitbox(#[trigger] w[a])
            && live_hurtbox(#[trigger] w[b]) && pair_hits(w[a], w[b]) ==> (
        w[a].hitbox->0).hit_entities@.contains(w[b].id)
}

/// Every hit list records each counterpart at most once.
pub open spec fn hit_lists_nodup(w: Seq<EntityRec>) -> bool {
    &&& forall|i: int|
        0 <= i < w.len() && (#[trigger] w[i]).hitbox is Some ==> crate::store::nodup_entities(
            (w[i].hitbox->0).hit_entities@,
        )
    &&& forall|i: int|
        0 <= i < w.len() && (#[trigger] w[i]).hurtbox is Some ==> crate::store::nodup_entities(
            (w[i].hurtbox->0).hit_by_entities@,
        )
}

/// Everything the pass does not own is untouched: all plain components are
/// unchanged, and the colliders keep their shapes, masks and effects. A
/// live hitbox's index handle is its entity identifier after the pass; any
/// other handle is unchanged.
pub open spec fn collide_frame(o: EntityRec, m: EntityRec) -> bool {
    &&& m.id == o.id
    &&& m.pos == o.pos
    &&& m.interpolate == o.interpolate
    &&& m.vel == o.vel
    &&& m.force == o.force
    &&& m.mass == o.mass
    &&& m.health == o.health
    &&& m.lifespan == o.lifespan
    &&& m.remove_on_hit == o.remove_on_hit
    &&& m.player == o.player
    &&& m.reflect_within == o.reflect_within
    &&& match o.hitbox {
        Option::Some(h) => m.hitbox matches Option::Some(h2) && h2.shape == h.shape && h2.mask
            == h.mask && h2.effect == h.effect && h2.dbvt_index == (if o.pos is Some {
            Option::Some(o.id.0)
        } else {
            h.dbvt_index
        }),
        Option::None => m.hitbox is None,
    }
    &&& match o.hurtbox {
        Option::Some(h) => m.hurtbox matches Option::Some(h2) && h2.shape == h.shape && h2.mask
            == h.mask && h2.dbvt_index == h.dbvt_index,
        Option::None => m.hurtbox is None,
    }
}

/// All plain components, both colliders' attributes, and the index handle
/// agree between the two records; only the per-tick hit lists may differ.
pub open spec fn same_but_hit_lists(o: EntityRec, m: EntityRec) -> bool {
    &&& m.id == o.id
    &&& m.pos == o.pos
    &&& m.interpolate == o.interpolate
    &&& m.vel == o.vel
    &&& m.force == o.force
    &&& m.mass == o.mass
    &&& m.health == o.health
    &&& m.lifespan == o.lifespan
    &&& m.remove_on_hit == o.remove_on_hit
    &&& m.player == o.player
    &&& m.reflect_within == o.reflect_within
    &&& match o.hitbox {
        Option::Some(h) => m.hitbox matches Option::Some(h2) && h2.shape == h.shape && h2.mask
            == h.mask && h2.effect == h.effect && h2.dbvt_index == h.dbvt_index,
        Option::None => m.hitbox is None,
    }
    &&& match o.hurtbox {
        Option::Some(h) => m.hurtbox matches Option::Some(h2) && h2.shape == h.shape && h2.mask
            == h.mask && h2.dbvt_index == h.dbvt_index,
        Option::None => m.hurtbox is None,
    }
}

/// Record one confirmed strike on both sides: hurtbox `j` was struck by
/// hitbox `hi`. The pairing keeps the hit lists symmetric and sound.
fn record_hit(world: &mut World, hi: usize, j: usize)
    requires
        old(world).wf(),
        hi < old(world).view().len(),
        j < old(world).view().len(),
        hi != j,
        live_hitbox(old(world).view()[hi as int]),
        live_hurtbox(old(world).view()[j as int]),
        pair_hits(old(world).view()[hi as int], old(world).view()[j as int]),
        hit_lists_symmetric(old(world).view()),
        hit_lists_sound(old(world).view()),
        hit_lists_nodup(old(world).view()),
        !(old(world).view()[hi as int].hitbox->0).hit_entities@.contains(
            old(world).view()[j as int].id,
        ),
        !(old(world).view()[j as int].hurtbox->0).hit_by_entities@.contains(
            old(world).view()[hi as int].id,
        ),
    ensures
        final(world).wf(),
        final(world).view().len() == old(world).view().len(),
        final(world).next_id() == old(world).next_id(),
        hit_lists_symmetric(final(world).view()),
        hit_lists_sound(final(world).view()),
        hit_lists_nodup(final(world).view()),
        forall|i: int|
            0 <= i < old(world).view().len() ==> same_but_hit_lists(
                old(world).view()[i],
                #[trigger] final(world).view()[i],
            ),
        (final(world).view()[hi as int].hitbox->0).hit_entities@.contains(
            old(world).view()[j as int].id,
        ),
        (final(world).view()[j as int].hurtbox->0).hit_by_entities@ == (
        old(world).view()[j as int].hurtbox->0).hit_by_entities@.push(
            old(world).view()[hi as int].id,
        ),
        forall|i: int|
            0 <= i < old(world).view().len() && i != hi && old(world).view()[i].hitbox is Some
                ==> (#[trigger] final(world).view()[i].hitbox->0).hit_entities@ == (
            old(world).view()[i].hitbox->0).hit_entities@,
        forall|i: int|
            0 <= i < old(world).view().len() && i != j && old(world).view()[i].hurtbox is Some
                ==> (#[trigger] final(world).view()[i].hurtbox->0).hit_by_entities@ == (
            old(world).view()[i].hurtbox->0).hit_by_entities@,
        forall|i: int, e: Entity|
            0 <= i < old(world).view().len() && old(world).view()[i].hitbox is Some && #[trigger] (
            old(world).view()[i].hitbox->0).hit_entities@.contains(e) ==> (
            final(world).view()[i].hitbox->0).hit_entities@.contains(e),
        forall|i: int, e: Entity|
            0 <= i < old(world).view().len() && old(world).view()[i].hurtbox is Some && #[trigger] (
            old(world).view()[i].hurtbox->0).hit_by_entities@.contains(e) ==> (
            final(world).view()[i].hurtbox->0).hit_by_entities@.contains(e),
{
    let ghost w0 = old(world).view();
    let hit_id: Entity = world.get(hi).id;
    let hurt_id: Entity = world.get(j).id;

    let mut rh = dup_rec(world.get(hi));
    let mut hb: HitboxComponent = match rh.hitbox {
        Option::Some(h) => h,
        Option::None => vstd::pervasive::unreached(),
    };
    hb.hit_entities.push(hurt_id);
    rh.hitbox = Option::Some(hb);
    world.set(hi, rh);

    let mut rj = dup_rec(world.get(j));
    let mut ub: HurtboxComponent = match rj.hurtbox {
        Option::Some(h) => h,
        Option::None => vstd::pervasive::unreached(),
    };
    ub.hit_by_entities.push(hit_id);
    rj.hurtbox = Option::Some(ub);
    world.set(j, rj);

    proof {
        let w2 = world.view();
        assert(w2[hi as int].id == w0[hi as int].id && w2[j as int].id == w0[j as int].id);
        assert forall|i: int| 0 <= i < w2.len() implies same_but_hit_lists(
            w0[i],
            #[trigger] w2[i],
        ) by {
            if i != hi as int && i != j as int {
                assert(w2[i] == w0[i]);
            }
        }
        assert((w2[hi as int].hitbox->0).hit_entities@ == (w0[hi as int].hitbox->0).hit_entities@.push(
            hurt_id,
        ));
        assert((w2[j as int].hurtbox->0).hit_by_entities@ == (w0[j as int].hurtbox->0).hit_by_entities@.push(
            hit_id,
        ));
        assert forall|i: int|
            0 <= i < w0.len() && i != hi as int && w0[i].hitbox is Some implies (
        #[trigger] w2[i].hitbox->0).hit_entities@ == (w0[i].hitbox->0).hit_entities@ by {
            if i != j as int {
                assert(w2[i] == w0[i]);
            }
        }
        assert forall|i: int|
            0 <= i < w0.len() && i != j as int && w0[i].hurtbox is Some implies (
        #[trigger] w2[i].hurtbox->0).hit_by_entities@ == (w0[i].hurtbox->0).hit_by_entities@ by {
            if i != hi as int {
                assert(w2[i] == w0[i]);
            }
        }
        assert forall|i: int|
            0 <= i < w2.len() && (#[trigger] w2[i]).hitbox is Some implies crate::store::nodup_entities(
            (w2[i].hitbox->0).hit_entities@,
        ) by {
            if i == hi as int {
                crate::store::lemma_nodup_push((w0[i].hitbox->0).hit_entities@, hurt_id);
            } else {
                assert(crate::store::nodup_entities((w0[i].hitbox->0).hit_entities@));
            }
        }
        assert forall|i: int|
            0 <= i < w2.len() && (#[trigger] w2[i]).hurtbox is Some implies crate::store::nodup_entities(
            (w2[i].hurtbox->0).hit_by_entities@,
        ) by {
            if i == j as int {
                crate::store::lemma_nodup_push((w0[i].hurtbox->0).hit_by_entities@, hit_id);
            } else {
                assert(crate::store::nodup_entities((w0[i].hurtbox->0).hit_by_entities@));
            }
        }
        assert forall|a: int, b: int|
            0 <= a < w2.len() && 0 <= b < w2.len() && (#[trigger] w2[a]).hitbox is Some && (
            #[trigger] w2[b]).hurtbox is Some implies ((w2[a].hitbox->0).hit_entities@.contains(
            w2[b].id,
        ) <==> (w2[b].hurtbox->0).hit_by_entities@.contains(w2[a].id)) by {
            assert(w2[a].id == w0[a].id && w2[b].id == w0[b].id);
            if a == hi as int && b == j as int {
            } else if a == hi as int {
                // a's hit list gained hurt_id; b is another hurtbox
                if w0[b].id == hurt_id {
                    lemma_id_unique(w0, b, j as int);
                }
            } else if b == j as int {
                if w0[a].id == hit_id {
                    lemma_id_unique(w0, a, hi as int);
                }
            } else {
                if b == hi as int {
                    // b's hurtbox list is unchanged; a's hit list unchanged
                }
            }
        }
        assert forall|i: int, e: Entity|
            0 <= i < w2.len() && w2[i].hitbox is Some && #[trigger] (w2[i].hitbox->0).hit_entities@.contains(
                e,
            ) implies exists|b: int|
            0 <= b < w2.len() && (#[trigger] w2[b]).id == e && live_hurtbox(w2[b]) && live_hitbox(
                w2[i],
            ) && e != w2[i].id && pair_hits(w2[i], w2[b]) by {
            if i == hi as int && e == hurt_id && !(w0[i].hitbox->0).hit_entities@.contains(e) {
                assert(w2[j as int].id == e && live_hurtbox(w2[j as int]) && live_hitbox(
                    w2[i],
                ) && e != w2[i].id && pair_hits(w2[i], w2[j as int])) by {
                    lemma_pair_hits_stable(w0, w2, hi as int, j as int);
                    assert(w0[hi as int].id != w0[j as int].id) by {
                        if w0[hi as int].id == w0[j as int].id {
                            lemma_id_unique(w0, hi as int, j as int);
                        }
                    }
                }
            } else {
                assert((w0[i].hitbox->0).hit_entities@.contains(e));
                let b = choose|b: int|
                    0 <= b < w0.len() && (#[trigger] w0[b]).id == e && live_hurtbox(w0[b])
                        && live_hitbox(w0[i]) && e != w0[i].id && pair_hits(w0[i], w0[b]);
                lemma_pair_hits_stable(w0, w2, i, b);
                assert(0 <= b < w2.len() && w2[b].id == e && live_hurtbox(w2[b]) && live_hitbox(
                    w2[i],
                ) && e != w2[i].id && pair_hits(w2[i], w2[b]));
            }
        }
        assert forall|jj: int, e: Entity|
            0 <= jj < w2.len() && w2[jj].hurtbox is Some && #[trigger] (w2[jj].hurtbox->0).hit_by_entities@.contains(
                e,
            ) implies exists|a: int|
            0 <= a < w2.len() && (#[trigger] w2[a]).id == e && live_hitbox(w2[a]) && live_hurtbox(
                w2[jj],
            ) && e != w2[jj].id && pair_hits(w2[a], w2[jj]) by {
            if jj == j as int && e == hit_id && !(w0[jj].hurtbox->0).hit_by_entities@.contains(e) {
                assert(w2[hi as int].id == e && live_hitbox(w2[hi as int]) && live_hurtbox(
                    w2[jj],
                ) && e != w2[jj].id && pair_hits(w2[hi as int], w2[jj])) by {
                    lemma_pair_hits_stable(w0, w2, hi as int, j as int);
                    assert(w0[hi as int].id != w0[j as int].id) by {
                        if w0[hi as int].id == w0[j as int].id {
                            lemma_id_unique(w0, hi as int, j as int);
                        }
                    }
                }
            } else {
                assert((w0[jj].hurtbox->0).hit_by_entities@.contains(e));
                let a = choose|a: int|
                    0 <= a < w0.len() && (#[trigger] w0[a]).id == e && live_hitbox(w0[a])
                        && live_hurtbox(w0[jj]) && e != w0[jj].id && pair_hits(w0[a], w0[jj]);
                lemma_pair_hits_stable(w0, w2, a, jj);
                assert(0 <= a < w2.len() && w2[a].id == e && live_hitbox(w2[a]) && live_hurtbox(
                    w2[jj],
                ) && e != w2[jj].id && pair_hits(w2[a], w2[jj]));
            }
        }
    }
}

/// `pair_hits` and liveness read only attributes that `same_but_hit_lists`
/// keeps, so they carry over between such views.
proof fn lemma_pair_hits_stable(w1: Seq<EntityRec>, w2: Seq<EntityRec>, a: int, b: int)
    requires
        w1.len() == w2.len(),
        0 <= a < w1.len(),
        0 <= b < w1.len(),
        same_but_hit_lists(w1[a], w2[a]),
        same_but_hit_lists(w1[b], w2[b]),
    ensures
        live_hitbox(w1[a]) == live_hitbox(w2[a]),
        live_hurtbox(w1[b]) == live_hurtbox(w2[b]),
        live_hitbox(w1[a]) && live_hurtbox(w1[b]) ==> pair_hits(w1[a], w1[b]) == pair_hits(
            w2[a],
            w2[b],
        ),
{
}

/// Some live hitbox entity owns the key `k`.
pub open spec fn live_key(w: Seq<EntityRec>, k: u64) -> bool {
    exists|i: int| 0 <= i < w.len() && live_hitbox(#[trigger] w[i]) && w[i].id.0 == k
}

/// What the update phase does to one record: the frame relation, plus both
/// per-tick hit lists cleared.
pub open spec fn phase_a_rel(o: EntityRec, m: EntityRec) -> bool {
    &&& collide_frame(o, m)
    &&& o.hitbox is Some ==> (m.hitbox->0).hit_entities@.len() == 0
    &&& o.hurtbox is Some ==> (m.hurtbox->0).hit_by_entities@.len() == 0
}

/// Update phase: refresh or insert every live hitbox's margin-expanded
/// bound in the index, record the handle, and clear all hit lists.
fn collide_update(world: &mut World, dbvt: &mut Dbvt, counters: &mut CollideCounters)
    requires
        old(world).wf(),
        old(dbvt).wf(),
    ensures
        final(world).wf(),
        final(world).view().len() == old(world).view().len(),
        final(world).next_id() == old(world).next_id(),
        final(dbvt).wf(),
        forall|i: int|
            0 <= i < old(world).view().len() ==> phase_a_rel(
                old(world).view()[i],
                #[trigger] final(world).view()[i],
            ),
        forall|i: int|
            0 <= i < old(world).view().len() && live_hitbox(#[trigger] final(world).view()[i])
                ==> final(dbvt).leaves().contains(
                leaf_data(
                    final(world).view()[i].id.0,
                    hb_fat_bound(final(world).view()[i]),
                ),
            ),
        forall|x: LeafData| #[trigger]
            final(dbvt).leaves().contains(x) ==> (!live_key(final(world).view(), x.key) || exists|i: int|
                0 <= i < old(world).view().len() && live_hitbox(#[trigger] final(world).view()[i])
                    && x == leaf_data(
                    final(world).view()[i].id.0,
                    hb_fat_bound(final(world).view()[i]),
                )),
{
    let ghost w0 = old(world).view();
    let n = world.len();
    let mut i: usize = 0;
    while i < n
        invariant
            world.wf(),
            dbvt.wf(),
            n == w0.len(),
            world.view().len() == n,
            world.next_id() == old(world).next_id(),
            i <= n,
            forall|j: int|
                0 <= j < i ==> phase_a_rel(w0[j], #[trigger] world.view()[j]),
            forall|j: int| i <= j < n ==> #[trigger] world.view()[j] == w0[j],
            forall|j: int|
                0 <= j < i && live_hitbox(#[trigger] world.view()[j]) ==> dbvt.leaves().contains(
                    leaf_data(world.view()[j].id.0, hb_fat_bound(world.view()[j])),
                ),
            forall|x: LeafData| #[trigger]
                dbvt.leaves().contains(x) ==> (!(exists|j: int|
                    0 <= j < i && live_hitbox(#[trigger] world.view()[j]) && world.view()[j].id.0
                        == x.key) || exists|j: int|
                    0 <= j < i && live_hitbox(#[trigger] world.view()[j]) && x == leaf_data(
                        world.view()[j].id.0,
                        hb_fat_bound(world.view()[j]),
                    )),
        decreases n - i,
    {
        let (has_hit, has_pos, has_hurt) = {
            let r = world.get(i);
            (r.hitbox.is_some(), r.pos.is_some(), r.hurtbox.is_some())
        };
        if has_hit || has_hurt {
            let ghost leaves_pre = dbvt.leaves();
            let mut rec = dup_rec(world.get(i));
            let ghost upserted_key: u64 = rec.id.0;
            let ghost mut upserted: Option<LeafData> = Option::None;
            if has_hit {
                let mut hb: HitboxComponent = match rec.hitbox {
                    Option::Some(h) => h,
                    Option::None => vstd::pervasive::unreached(),
                };
                hb.hit_entities = Vec::new();
                if has_pos {
                    counters.hitboxes = bump(counters.hitboxes);
                    match hb.dbvt_index {
                        Option::Some(_) => {
                            counters.dbvt_updates = bump(counters.dbvt_updates);
                        },
                        Option::None => {
                            counters.dbvt_inserts = bump(counters.dbvt_inserts);
                        },
                    }
                    let pos: crate::fix::Vec2 = match rec.pos {
                        Option::Some(c) => c.0,
                        Option::None => vstd::pervasive::unreached(),
                    };
                    let bound = compute_bound(&hb.shape, pos, COLLISION_MARGIN);
                    dbvt.upsert(rec.id.0, bound);
                    proof {
                        upserted = Option::Some(leaf_data(rec.id.0, bound));
                    }
                    hb.dbvt_index = Option::Some(rec.id.0);
                }
                rec.hitbox = Option::Some(hb);
            }
            if has_hurt {
                let mut ub: HurtboxComponent = match rec.hurtbox {
                    Option::Some(h) => h,
                    Option::None => vstd::pervasive::unreached(),
                };
                ub.hit_by_entities = Vec::new();
                rec.hurtbox = Option::Some(ub);
            }
            world.set(i, rec);
            proof {
                let w = world.view();
                assert(w[i as int].id == w0[i as int].id);
                if has_hit && has_pos {
                    let me = leaf_data(w[i as int].id.0, hb_fat_bound(w[i as int]));
                    assert(upserted == Option::Some(me));
                    assert(dbvt.leaves().contains(me));
                    assert forall|j: int|
                        0 <= j < i + 1 && live_hitbox(#[trigger] w[j]) implies dbvt.leaves().contains(
                        leaf_data(w[j].id.0, hb_fat_bound(w[j])),
                    ) by {
                        if j == i as int {
                        } else {
                            assert(w[j].id.0 != w[i as int].id.0) by {
                                if w[j].id.0 == w[i as int].id.0 {
                                    lemma_id_unique(w, j, i as int);
                                }
                            }
                        }
                    }
                    assert forall|x: LeafData| #[trigger] dbvt.leaves().contains(x) implies (!(
                    exists|j: int|
                        0 <= j < i + 1 && live_hitbox(#[trigger] w[j]) && w[j].id.0 == x.key)
                        || exists|j: int|
                        0 <= j < i + 1 && live_hitbox(#[trigger] w[j]) && x == leaf_data(
                            w[j].id.0,
                            hb_fat_bound(w[j]),
                        )) by {
                        if x == me {
                            assert(live_hitbox(w[i as int]) && x == leaf_data(
                                w[i as int].id.0,
                                hb_fat_bound(w[i as int]),
                            ));
                        } else {
                            assert(leaves_pre.contains(x) && x.key != upserted_key);
                            if exists|j: int|
                                0 <= j < i && live_hitbox(#[trigger] w[j]) && x == leaf_data(
                                    w[j].id.0,
                                    hb_fat_bound(w[j]),
                                ) {
                            } else {
                                assert forall|j: int|
                                    0 <= j < i + 1 && live_hitbox(#[trigger] w[j]) implies w[j].id.0
                                    != x.key by {
                                    if j == i as int {
                                        assert(w[i as int].id.0 == upserted_key);
                                    }
                                }
                            }
                        }
                    }
                } else {
                    assert(dbvt.leaves() == leaves_pre);
                    assert(!live_hitbox(w[i as int]));
                    assert forall|x: LeafData| #[trigger] dbvt.leaves().contains(x) implies (!(
                    exists|j: int|
                        0 <= j < i + 1 && live_hitbox(#[trigger] w[j]) && w[j].id.0 == x.key)
                        || exists|j: int|
                        0 <= j < i + 1 && live_hitbox(#[trigger] w[j]) && x == leaf_data(
                            w[j].id.0,
                            hb_fat_bound(w[j]),
                        )) by {
                        if exists|j: int|
                            0 <= j < i && live_hitbox(#[trigger] w[j]) && x == leaf_data(
                                w[j].id.0,
                                hb_fat_bound(w[j]),
                            ) {
                        } else {
                            assert forall|j: int|
                                0 <= j < i + 1 && live_hitbox(#[trigger] w[j]) implies w[j].id.0
                                != x.key by {}
                        }
                    }
                }
            }
        }
        i = i + 1;
    }
}

/// Sweep phase: remove every index leaf whose key no longer belongs to a
/// live hitbox entity.
fn collide_sweep(world: &World, dbvt: &mut Dbvt, counters: &mut CollideCounters)
    requires
        world.wf(),
        old(dbvt).wf(),
        forall|i: int|
            0 <= i < world.view().len() && live_hitbox(#[trigger] world.view()[i]) ==> old(dbvt).leaves().contains(
                leaf_data(world.view()[i].id.0, hb_fat_bound(world.view()[i])),
            ),
        forall|x: LeafData| #[trigger]
            old(dbvt).leaves().contains(x) ==> (!live_key(world.view(), x.key) || exists|i: int|
                0 <= i < world.view().len() && live_hitbox(#[trigger] world.view()[i]) && x
                    == leaf_data(world.view()[i].id.0, hb_fat_bound(world.view()[i]))),
    ensures
        final(dbvt).wf(),
        tree_live(world.view(), final(dbvt).leaves()),
        forall|i: int|
            0 <= i < world.view().len() && live_hitbox(#[trigger] world.view()[i]) ==> final(dbvt).leaves().contains(
                leaf_data(world.view()[i].id.0, hb_fat_bound(world.view()[i])),
            ),
{
    let ghost leaves_a = dbvt.leaves();
    let vals = dbvt.values();
    let m = vals.len();
    let mut c: usize = 0;
    while c < m
        invariant
            world.wf(),
            dbvt.wf(),
            m == vals@.len(),
            c <= m,
            vals@ == leaves_a,
            forall|i: int|
                0 <= i < world.view().len() && live_hitbox(#[trigger] world.view()[i])
                    ==> dbvt.leaves().contains(
                    leaf_data(world.view()[i].id.0, hb_fat_bound(world.view()[i])),
                ),
            forall|x: LeafData| #[trigger]
                dbvt.leaves().contains(x) ==> leaves_a.contains(x),
            forall|x: LeafData| #[trigger]
                leaves_a.contains(x) ==> (!live_key(world.view(), x.key) || exists|i: int|
                    0 <= i < world.view().len() && live_hitbox(#[trigger] world.view()[i]) && x
                        == leaf_data(world.view()[i].id.0, hb_fat_bound(world.view()[i]))),
            forall|cc: int|
                0 <= cc < c ==> !has_key(dbvt.leaves(), (#[trigger] vals@[cc]).key) || live_key(
                    world.view(),
                    vals@[cc].key,
                ),
        decreases m - c,
    {
        let key: u64 = vals[c].key;
        let found = world.find(Entity(key));
        let keep: bool = match found {
            Option::Some(k) => {
                let r = world.get(k);
                r.pos.is_some() && r.hitbox.is_some()
            },
            Option::None => false,
        };
        if !keep {
            counters.dbvt_removes = bump(counters.dbvt_removes);
            proof {
                assert(!live_key(world.view(), key)) by {
                    if live_key(world.view(), key) {
                        let ii = choose|ii: int|
                            0 <= ii < world.view().len() && live_hitbox(#[trigger] world.view()[ii])
                                && world.view()[ii].id.0 == key;
                        assert(world.view()[ii].id == (Entity(key)));
                        if found is Some {
                            lemma_id_unique(world.view(), found->0 as int, ii);
                        } else {
                            assert(world.has_id(Entity(key)));
                        }
                    }
                }
            }
            dbvt.remove(key);
            proof {
                assert forall|cc: int|
                    0 <= cc < c + 1 implies !has_key(dbvt.leaves(), (#[trigger] vals@[cc]).key)
                    || live_key(world.view(), vals@[cc].key) by {
                    if cc < c {
                        if has_key(dbvt.leaves(), vals@[cc].key) && !live_key(
                            world.view(),
                            vals@[cc].key,
                        ) {
                            lemma_has_key_contains(dbvt.leaves(), vals@[cc].key);
                        }
                    } else {
                        if has_key(dbvt.leaves(), vals@[cc].key) {
                            lemma_has_key_contains(dbvt.leaves(), vals@[cc].key);
                        }
                    }
                }
            }
        } else {
            proof {
                let k = found->0;
                assert(live_key(world.view(), key)) by {
                    assert(0 <= k < world.view().len() && live_hitbox(world.view()[k as int])
                        && world.view()[k as int].id.0 == key);
                }
            }
        }
        c = c + 1;
    }
    proof {
        assert forall|x: LeafData| #[trigger] dbvt.leaves().contains(x) implies exists|i: int|
            0 <= i < world.view().len() && live_hitbox(#[trigger] world.view()[i]) && x
                == leaf_data(world.view()[i].id.0, hb_fat_bound(world.view()[i])) by {
            assert(leaves_a.contains(x));
            if !live_key(world.view(), x.key) {
                let cc = choose|cc: int| 0 <= cc < leaves_a.len() && leaves_a[cc] == x;
                assert(vals@[cc] == x);
                assert(!has_key(dbvt.leaves(), x.key));
                lemma_has_key_contains(dbvt.leaves(), x.key);
            }
        }
    }
}

/// Query phase: for every entity with a hurtbox and a position, query the
/// index for candidate hitboxes, filter by mask, test the exact geometry,
/// and record every confirmed strike on both sides.
fn collide_queries(world: &mut World, dbvt: &Dbvt, counters: &mut CollideCounters)
    requires
        old(world).wf(),
        dbvt.wf(),
        tree_live(old(world).view(), dbvt.leaves()),
        forall|i: int|
            0 <= i < old(world).view().len() && live_hitbox(#[trigger] old(world).view()[i])
                ==> dbvt.leaves().contains(
                leaf_data(old(world).view()[i].id.0, hb_fat_bound(old(world).view()[i])),
            ),
        forall|i: int|
            0 <= i < old(world).view().len() ==> {
                let o = #[trigger] old(world).view()[i];
                &&& (o.hitbox is Some ==> (o.hitbox->0).hit_entities@.len() == 0)
                &&& (o.hurtbox is Some ==> (o.hurtbox->0).hit_by_entities@.len() == 0)
            },
    ensures
        final(world).wf(),
        final(world).view().len() == old(world).view().len(),
        final(world).next_id() == old(world).next_id(),
        hit_lists_symmetric(final(world).view()),
        hit_lists_sound(final(world).view()),
        hit_lists_complete(final(world).view()),
        hit_lists_nodup(final(world).view()),
        forall|i: int|
            0 <= i < old(world).view().len() ==> same_but_hit_lists(
                old(world).view()[i],
                #[trigger] final(world).view()[i],
            ),
{
    let ghost w1 = old(world).view();
    proof {
        assert forall|a: int, b: int|
            0 <= a < w1.len() && 0 <= b < w1.len() && (#[trigger] w1[a]).hitbox is Some && (
            #[trigger] w1[b]).hurtbox is Some implies ((w1[a].hitbox->0).hit_entities@.contains(
            w1[b].id,
        ) <==> (w1[b].hurtbox->0).hit_by_entities@.contains(w1[a].id)) by {
            assert((w1[a].hitbox->0).hit_entities@.len() == 0);
            assert((w1[b].hurtbox->0).hit_by_entities@.len() == 0);
        }
    }
    let n = world.len();
    let mut j: usize = 0;
    while j < n
        invariant
            world.wf(),
            dbvt.wf(),
            n == w1.len(),
            world.view().len() == n,
            world.next_id() == old(world).next_id(),
            j <= n,
            tree_live(w1, dbvt.leaves()),
            forall|i: int|
                0 <= i < n && live_hitbox(#[trigger] w1[i]) ==> dbvt.leaves().contains(
                    leaf_data(w1[i].id.0, hb_fat_bound(w1[i])),
                ),
            hit_lists_symmetric(world.view()),
            hit_lists_sound(world.view()),
            hit_lists_nodup(world.view()),
            forall|j2: int|
                j <= j2 < n && (#[trigger] world.view()[j2]).hurtbox is Some ==> (
                world.view()[j2].hurtbox->0).hit_by_entities@.len() == 0,
            forall|a: int, j2: int|
                0 <= a < n && 0 <= j2 < j && a != j2 && live_hitbox(#[trigger] world.view()[a])
                    && live_hurtbox(#[trigger] world.view()[j2]) && pair_hits(
                    world.view()[a],
                    world.view()[j2],
                ) ==> (world.view()[a].hitbox->0).hit_entities@.contains(world.view()[j2].id),
            forall|i: int|
                0 <= i < n ==> same_but_hit_lists(w1[i], #[trigger] world.view()[i]),
        decreases n - j,
    {
        let process = {
            let r = world.get(j);
            r.hurtbox.is_some() && r.pos.is_some()
        };
        if process {
            counters.dbvt_queries = bump(counters.dbvt_queries);
            let (ushape, upos): (Shape, crate::fix::Vec2) = {
                let r = world.get(j);
                let s: Shape = match &r.hurtbox {
                    Option::Some(h) => h.shape,
                    Option::None => vstd::pervasive::unreached(),
                };
                let p: crate::fix::Vec2 = match &r.pos {
                    Option::Some(c) => c.0,
                    Option::None => vstd::pervasive::unreached(),
                };
                (s, p)
            };
            let hbound = compute_bound(&ushape, upos, 0);
            let cands = dbvt.query(&hbound);
            proof {
                crate::dbvt::lemma_query_filter_props(hbound, dbvt.leaves());
                dbvt.lemma_wf_keys_unique();
                crate::leaf::lemma_filter_keys_unique(
                    dbvt.leaves(),
                    |ld: LeafData| hits(hbound, ld),
                );
                assert(crate::leaf::keys_unique(cands@));
            }
            let m = cands.len();
            let mut c: usize = 0;
            while c < m
                invariant
                    world.wf(),
                    dbvt.wf(),
                    n == w1.len(),
                    world.view().len() == n,
                    world.next_id() == old(world).next_id(),
                    0 <= j < n,
                    c <= m,
                    m == cands@.len(),
                    w1[j as int].hurtbox is Some,
                    w1[j as int].pos is Some,
                    ushape == (w1[j as int].hurtbox->0).shape,
                    upos == (w1[j as int].pos->0).0,
                    shape_ok(ushape),
                    crate::fix::v2_ok(upos),
                    cands@ == query_filter(hbound, dbvt.leaves()),
                    forall|x: LeafData| #[trigger]
                        query_filter(hbound, dbvt.leaves()).contains(x) ==> dbvt.leaves().contains(
                            x,
                        ),
                    tree_live(w1, dbvt.leaves()),
                    forall|i: int|
                        0 <= i < n && live_hitbox(#[trigger] w1[i]) ==> dbvt.leaves().contains(
                            leaf_data(w1[i].id.0, hb_fat_bound(w1[i])),
                        ),
                    hit_lists_symmetric(world.view()),
                    hit_lists_sound(world.view()),
                    hit_lists_nodup(world.view()),
                    crate::leaf::keys_unique(cands@),
                    forall|j2: int|
                        j < j2 < n && (#[trigger] world.view()[j2]).hurtbox is Some ==> (
                        world.view()[j2].hurtbox->0).hit_by_entities@.len() == 0,
                    forall|e: Entity| #[trigger] (world.view()[j as int].hurtbox->0).hit_by_entities@.contains(
                        e,
                    ) ==> exists|cc2: int| 0 <= cc2 < c && e.0 == (#[trigger] cands@[cc2]).key,
                    forall|a: int, j2: int|
                        0 <= a < n && 0 <= j2 < j && a != j2 && live_hitbox(
                            #[trigger] world.view()[a],
                        ) && live_hurtbox(#[trigger] world.view()[j2]) && pair_hits(
                            world.view()[a],
                            world.view()[j2],
                        ) ==> (world.view()[a].hitbox->0).hit_entities@.contains(
                            world.view()[j2].id,
                        ),
                    forall|cc: int, a: int|
                        0 <= cc < c && 0 <= a < n && a != j && live_hitbox(
                            #[trigger] world.view()[a],
                        ) && world.view()[a].id.0 == (#[trigger] cands@[cc]).key && live_hurtbox(
                            world.view()[j as int],
                        ) && pair_hits(world.view()[a], world.view()[j as int]) ==> (
                        world.view()[a].hitbox->0).hit_entities@.contains(
                            world.view()[j as int].id,
                        ),
                    forall|i: int|
                        0 <= i < n ==> same_but_hit_lists(w1[i], #[trigger] world.view()[i]),
                decreases m - c,
            {
                let ld: LeafData = cands[c];
                counters.dbvt_hits = bump(counters.dbvt_hits);
                let he = Entity(ld.key);
                let self_id: Entity = world.get(j).id;
                proof {
                    assert(cands@[c as int] == ld);
                }
                if he.0 == self_id.0 {
                    proof {
                        assert forall|a: int|
                            0 <= a < n && a != j as int && (#[trigger] world.view()[a]).id.0
                                == ld.key implies false by {
                            assert(world.view()[j as int].id == self_id);
                            lemma_id_unique(world.view(), a, j as int);
                        }
                    }
                } else {
                    proof {
                        assert(cands@[c as int] == ld);
                        assert(cands@.contains(ld));
                        assert(dbvt.leaves().contains(ld));
                    }
                    let ghost ii = choose|ii: int|
                        0 <= ii < w1.len() && live_hitbox(#[trigger] w1[ii]) && ld == leaf_data(
                            w1[ii].id.0,
                            hb_fat_bound(w1[ii]),
                        );
                    let found = world.find(he);
                    let hi: usize = match found {
                        Option::Some(k) => k,
                        Option::None => {
                            proof {
                                assert(world.view()[ii].id == w1[ii].id);
                                assert(world.view()[ii].id == he);
                                assert(world.has_id(he));
                            }
                            vstd::pervasive::unreached()
                        },
                    };
                    proof {
                        assert(world.view()[ii].id == he);
                        lemma_id_unique(world.view(), hi as int, ii);
                        assert(live_hitbox(world.view()[hi as int]));
                        assert(hi != j);
                    }
                    let (hmask, hshape, hpos): (HitboxMask, Shape, crate::fix::Vec2) = {
                        let r = world.get(hi);
                        let mk: HitboxMask = match &r.hitbox {
                            Option::Some(h) => h.mask,
                            Option::None => vstd::pervasive::unreached(),
                        };
                        let s: Shape = match &r.hitbox {
                            Option::Some(h) => h.shape,
                            Option::None => vstd::pervasive::unreached(),
                        };
                        let p: crate::fix::Vec2 = match &r.pos {
                            Option::Some(cc) => cc.0,
                            Option::None => vstd::pervasive::unreached(),
                        };
                        (mk, s, p)
                    };
                    let umask: HitboxMask = {
                        let r = world.get(j);
                        match &r.hurtbox {
                            Option::Some(h) => h.mask,
                            Option::None => vstd::pervasive::unreached(),
                        }
                    };
                    if umask.overlaps(hmask) {
                        counters.mask_hits = bump(counters.mask_hits);
                        if crate::collision::test(&ushape, upos, &hshape, hpos) {
                            counters.narrow_hits = bump(counters.narrow_hits);
                            proof {
                                assert(pair_hits(
                                    world.view()[hi as int],
                                    world.view()[j as int],
                                ));
                                assert(!(world.view()[j as int].hurtbox->0).hit_by_entities@.contains(
                                    world.view()[hi as int].id,
                                )) by {
                                    if (world.view()[j as int].hurtbox->0).hit_by_entities@.contains(
                                        world.view()[hi as int].id,
                                    ) {
                                        let cc2 = choose|cc2: int|
                                            0 <= cc2 < c && world.view()[hi as int].id.0 == (
                                            #[trigger] cands@[cc2]).key;
                                        assert(cands@[cc2].key == cands@[c as int].key);
                                    }
                                }
                                assert(!(world.view()[hi as int].hitbox->0).hit_entities@.contains(
                                    world.view()[j as int].id,
                                ));
                            }
                            let ghost v_pre = world.view();
                            record_hit(world, hi, j);
                            proof {
                                let v2 = world.view();
                                assert(v2[hi as int].id == v_pre[hi as int].id && v2[j as int].id
                                    == v_pre[j as int].id);
                                assert forall|a: int, j2: int|
                                    0 <= a < n && 0 <= j2 < j && a != j2 && live_hitbox(
                                        #[trigger] v2[a],
                                    ) && live_hurtbox(#[trigger] v2[j2]) && pair_hits(
                                        v2[a],
                                        v2[j2],
                                    ) implies (v2[a].hitbox->0).hit_entities@.contains(
                                    v2[j2].id,
                                ) by {
                                    lemma_pair_hits_stable(v_pre, v2, a, j2);
                                    assert((v_pre[a].hitbox->0).hit_entities@.contains(
                                        v_pre[j2].id,
                                    ));
                                }
                                assert forall|cc: int, a: int|
                                    0 <= cc < c + 1 && 0 <= a < n && a != j as int && live_hitbox(
                                        #[trigger] v2[a],
                                    ) && v2[a].id.0 == (#[trigger] cands@[cc]).key && live_hurtbox(
                                        v2[j as int],
                                    ) && pair_hits(v2[a], v2[j as int]) implies (
                                v2[a].hitbox->0).hit_entities@.contains(v2[j as int].id) by {
                                    if cc == c as int {
                                        assert(v2[a].id == v2[hi as int].id);
                                        lemma_id_unique(v2, a, hi as int);
                                    } else {
                                        lemma_pair_hits_stable(v_pre, v2, a, j as int);
                                        assert((v_pre[a].hitbox->0).hit_entities@.contains(
                                            v_pre[j as int].id,
                                        ));
                                    }
                                }
                                assert forall|j2: int|
                                    j < j2 < n && (#[trigger] v2[j2]).hurtbox is Some implies (
                                v2[j2].hurtbox->0).hit_by_entities@.len() == 0 by {
                                    assert((v2[j2].hurtbox->0).hit_by_entities@ == (
                                    v_pre[j2].hurtbox->0).hit_by_entities@);
                                }
                                assert forall|e: Entity| #[trigger] (
                                v2[j as int].hurtbox->0).hit_by_entities@.contains(
                                    e,
                                ) implies exists|cc2: int|
                                    0 <= cc2 < c + 1 && e.0 == (#[trigger] cands@[cc2]).key by {
                                    assert((v2[j as int].hurtbox->0).hit_by_entities@ == (
                                    v_pre[j as int].hurtbox->0).hit_by_entities@.push(
                                        v_pre[hi as int].id,
                                    ));
                                    if e == v_pre[hi as int].id
                                        && !(v_pre[j as int].hurtbox->0).hit_by_entities@.contains(
                                        e,
                                    ) {
                                        assert(e.0 == cands@[c as int].key);
                                    } else {
                                        assert((v_pre[j as int].hurtbox->0).hit_by_entities@.contains(
                                            e,
                                        ));
                                        let cc2 = choose|cc2: int|
                                            0 <= cc2 < c && e.0 == (#[trigger] cands@[cc2]).key;
                                        assert(0 <= cc2 < c + 1 && e.0 == cands@[cc2].key);
                                    }
                                }
                            }
                        } else {
                            counters.narrow_misses = bump(counters.narrow_misses);
                            proof {
                                assert forall|a: int|
                                    0 <= a < n && a != j as int && (#[trigger] world.view()[a]).id.0
                                        == ld.key implies !pair_hits(
                                    world.view()[a],
                                    world.view()[j as int],
                                ) by {
                                    assert(world.view()[a].id == world.view()[hi as int].id);
                                    lemma_id_unique(world.view(), a, hi as int);
                                    assert(ushape == (world.view()[j as int].hurtbox->0).shape);
                                    assert(upos == (world.view()[j as int].pos->0).0);
                                }
                            }
                        }
                    } else {
                        counters.mask_misses = bump(counters.mask_misses);
                        proof {
                            assert forall|a: int|
                                0 <= a < n && a != j as int && (#[trigger] world.view()[a]).id.0
                                    == ld.key implies !pair_hits(
                                world.view()[a],
                                world.view()[j as int],
                            ) by {
                                assert(world.view()[a].id == world.view()[hi as int].id);
                                lemma_id_unique(world.view(), a, hi as int);
                            }
                        }
                    }
                }
                c = c + 1;
            }
            proof {
                let v = world.view();
                assert forall|a: int, j2: int|
                    0 <= a < n && 0 <= j2 < j + 1 && a != j2 && live_hitbox(#[trigger] v[a])
                        && live_hurtbox(#[trigger] v[j2]) && pair_hits(v[a], v[j2]) implies (
                v[a].hitbox->0).hit_entities@.contains(v[j2].id) by {
                    if j2 == j as int {
                        assert(same_but_hit_lists(w1[a], v[a]));
                        assert(live_hitbox(w1[a]));
                        let myleaf = leaf_data(w1[a].id.0, hb_fat_bound(w1[a]));
                        assert(dbvt.leaves().contains(myleaf));
                        assert(hb_fat_bound(w1[a]) == bound_at(
                            (v[a].hitbox->0).shape,
                            (v[a].pos->0).0,
                            COLLISION_MARGIN as int,
                        ));
                        crate::collision::lemma_intersect_implies_bounds_overlap(
                            (v[j2].hurtbox->0).shape,
                            (v[j2].pos->0).0,
                            (v[a].hitbox->0).shape,
                            (v[a].pos->0).0,
                            0,
                            COLLISION_MARGIN as int,
                        );
                        assert(hbound == bound_at((v[j2].hurtbox->0).shape, (v[j2].pos->0).0, 0));
                        assert(hits(hbound, myleaf));
                        crate::dbvt::lemma_query_filter_props(hbound, dbvt.leaves());
                        assert(query_filter(hbound, dbvt.leaves()).contains(myleaf));
                        let cc = choose|cc: int|
                            0 <= cc < cands@.len() && cands@[cc] == myleaf;
                        assert(v[a].id.0 == (cands@[cc]).key);
                        assert((v[a].hitbox->0).hit_entities@.contains(v[j as int].id));
                    }
                }
            }
        } else {
            proof {
                let v = world.view();
                assert forall|a: int, j2: int|
                    0 <= a < n && 0 <= j2 < j + 1 && a != j2 && live_hitbox(#[trigger] v[a])
                        && live_hurtbox(#[trigger] v[j2]) && pair_hits(v[a], v[j2]) implies (
                v[a].hitbox->0).hit_entities@.contains(v[j2].id) by {
                    if j2 == j as int {
                        assert(!live_hurtbox(v[j as int]));
                    }
                }
            }
        }
        j = j + 1;
    }
}

/// The hit-resolution pass as a relation between the world before and
/// after: the frame holds record by record, and the resulting hit lists
/// are symmetric, sound, complete, and duplicate-free.
pub open spec fn collide_rel(w0: Seq<EntityRec>, w1: Seq<EntityRec>) -> bool {
    &&& w1.len() == w0.len()
    &&& forall|i: int| 0 <= i < w0.len() ==> collide_frame(w0[i], #[trigger] w1[i])
    &&& hit_lists_symmetric(w1)
    &&& hit_lists_sound(w1)
    &&& hit_lists_complete(w1)
    &&& hit_lists_nodup(w1)
}

/// Hit resolution: refresh the spatial index from the live hitbox set,
/// drop stale index entries, rebalance once with the supplied random draw,
/// and then resolve every hurtbox against its broad-phase candidates with
/// mask filtering and exact narrow-phase tests. Hit lists are cleared
/// exactly once at the start and populated symmetrically; every recorded
/// strike is between live, distinct entities whose masks share a bit and
/// whose shapes intersect.
pub fn hitbox(world: &mut World, dbvt: &mut Dbvt, tick_word: u32, counters: &mut CollideCounters)
    requires
        old(world).wf(),
        old(dbvt).wf(),
    ensures
        final(world).wf(),
        final(world).next_id() == old(world).next_id(),
        final(dbvt).wf(),
        collide_rel(old(world).view(), final(world).view()),
        crate::health::hit_by_resolved(final(world).view()),
        tree_live(final(world).view(), final(dbvt).leaves()),
        forall|i: int|
            0 <= i < old(world).view().len() && live_hitbox(#[trigger] final(world).view()[i])
                ==> final(dbvt).leaves().contains(
                leaf_data(
                    final(world).view()[i].id.0,
                    hb_fat_bound(final(world).view()[i]),
                ),
            ),
{
    let ghost w0 = old(world).view();
    *counters = CollideCounters::default();
    collide_update(world, dbvt, counters);
    let ghost w1 = world.view();
    collide_sweep(world, dbvt, counters);
    dbvt.tick(tick_word);
    proof {
        assert(tree_live(w1, dbvt.leaves()));
        assert forall|i: int|
            0 <= i < w1.len() && live_hitbox(#[trigger] w1[i]) implies dbvt.leaves().contains(
            leaf_data(w1[i].id.0, hb_fat_bound(w1[i])),
        ) by {}
        assert forall|i: int|
            0 <= i < w1.len() implies {
            let o = #[trigger] w1[i];
            &&& (o.hitbox is Some ==> (o.hitbox->0).hit_entities@.len() == 0)
            &&& (o.hurtbox is Some ==> (o.hurtbox->0).hit_by_entities@.len() == 0)
        } by {
            assert(phase_a_rel(w0[i], w1[i]));
        }
    }
    collide_queries(world, dbvt, counters);
    proof {
        let w2 = world.view();
        assert forall|i: int|
            0 <= i < w0.len() implies collide_frame(w0[i], #[trigger] w2[i]) by {
            assert(phase_a_rel(w0[i], w1[i]));
            assert(same_but_hit_lists(w1[i], w2[i]));
        }
        assert forall|i: int, jj: int|
            0 <= i < w2.len() && w2[i].hurtbox is Some && 0 <= jj < (
            w2[i].hurtbox->0).hit_by_entities@.len() implies exists|k: int|
            0 <= k < w2.len() && w2[k].id == (#[trigger] (w2[i].hurtbox->0).hit_by_entities@[jj])
                && w2[k].hitbox is Some by {
            let e = (w2[i].hurtbox->0).hit_by_entities@[jj];
            assert((w2[i].hurtbox->0).hit_by_entities@.contains(e));
            let a = choose|a: int|
                0 <= a < w2.len() && (#[trigger] w2[a]).id == e && live_hitbox(w2[a])
                    && live_hurtbox(w2[i]) && e != w2[i].id && pair_hits(w2[a], w2[i]);
            assert(0 <= a < w2.len() && w2[a].id == e && w2[a].hitbox is Some);
        }
        assert forall|x: LeafData| #[trigger] dbvt.leaves().contains(x) implies exists|i: int|
            0 <= i < w2.len() && live_hitbox(#[trigger] w2[i]) && x == leaf_data(
                w2[i].id.0,
                hb_fat_bound(w2[i]),
            ) by {
            let i = choose|i: int|
                0 <= i < w1.len() && live_hitbox(#[trigger] w1[i]) && x == leaf_data(
                    w1[i].id.0,
                    hb_fat_bound(w1[i]),
                );
            assert(same_but_hit_lists(w1[i], w2[i]));
            assert(live_hitbox(w2[i]) && x == leaf_data(w2[i].id.0, hb_fat_bound(w2[i])));
        }
        assert forall|i: int|
            0 <= i < w2.len() && live_hitbox(#[trigger] w2[i]) implies dbvt.leaves().contains(
            leaf_data(w2[i].id.0, hb_fat_bound(w2[i])),
        ) by {
            assert(same_but_hit_lists(w1[i], w2[i]));
            assert(live_hitbox(w1[i]));
            assert(dbvt.leaves().contains(leaf_data(w1[i].id.0, hb_fat_bound(w1[i]))));
            assert(leaf_data(w1[i].id.0, hb_fat_bound(w1[i])) == leaf_data(
                w2[i].id.0,
                hb_fat_bound(w2[i]),
            ));
        }
    }
}

} // verus!
