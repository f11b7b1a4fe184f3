//! The entity store: opaque identifiers, per-entity component records, and
//! the deferred command buffer.
//!
//! All entity state is attached as optional components on a record keyed by
//! entity identity. Records are held in identifier order; identifiers are
//! never reused, and a stale identifier simply fails to resolve.

use vstd::prelude::*;
use crate::bullet::{LifespanComponent, RemoveOnHitComponent};
use crate::health::{health_ok, HealthComponent};
use crate::hitbox::{hitbox_ok, hurtbox_ok, HitboxComponent, HurtboxComponent};
use crate::interpolate::{interpolate_ok, InterpolateComponent};
use crate::physics::{force_ok, mass_ok, velocity_ok, ForceComponent, MassComponent, VelocityComponent};
use crate::player::{player_ok, PlayerComponent};
use crate::position::{position_ok, PositionComponent};
use crate::reflect::{reflect_within_ok, ReflectWithin};

verus! {

/// An opaque entity identifier. Identifiers are handed out in increasing
/// order and never reused.
#[derive(Clone, Copy, Debug, PartialEq, Eq, Structural, Hash)]
pub struct Entity(pub u64);

/// One entity's components. Every component is optional; systems select
/// the entities that carry the components they read or write.
#[derive(Debug)]
pub struct EntityRec {
    pub id: Entity,
    pub pos: Option<PositionComponent>,
    pub interpolate: Option<InterpolateComponent>,
    pub vel: Option<VelocityComponent>,
    pub force: Option<ForceComponent>,
    pub mass: Option<MassComponent>,
    pub hitbox: Option<HitboxComponent>,
    pub hurtbox: Option<HurtboxComponent>,
    pub health: Option<HealthComponent>,
    pub lifespan: Option<LifespanComponent>,
    pub remove_on_hit: Option<RemoveOnHitComponent>,
    pub player: Option<PlayerComponent>,
    pub reflect_within: Option<ReflectWithin>,
}

impl EntityRec {
    /// A record with no components; scene construction fills in the ones it
    /// wants before pushing.
    pub fn new() -> (r: EntityRec)
        ensures
            r.id == (Entity(0)),
            r.pos is None,
            r.interpolate is None,
            r.vel is None,
            r.force is None,
            r.mass is None,
            r.hitbox is None,
            r.hurtbox is None,
            r.health is None,
            r.lifespan is None,
            r.remove_on_hit is None,
            r.player is None,
            r.reflect_within is None,
            rec_ok(r),
    {
        EntityRec {
            id: Entity(0),
            pos: Option::None,
            interpolate: Option::None,
            vel: Option::None,
            force: Option::None,
            mass: Option::None,
            hitbox: Option::None,
            hurtbox: Option::None,
            health: Option::None,
            lifespan: Option::None,
            remove_on_hit: Option::None,
            player: Option::None,
            reflect_within: Option::None,
        }
    }
}

/// Every component the record carries is internally valid and within the
/// representable fixed-point range.
pub open spec fn rec_ok(r: EntityRec) -> bool {
    &&& match r.pos {
        Option::Some(c) => position_ok(c),
        Option::None => true,
    }
    &&& match r.interpolate {
        Option::Some(c) => interpolate_ok(c),
        Option::None => true,
    }
    &&& match r.vel {
        Option::Some(c) => velocity_ok(c),
        Option::None => true,
    }
    &&& match r.force {
        Option::Some(c) => force_ok(c),
        Option::None => true,
    }
    &&& match r.mass {
        Option::Some(c) => mass_ok(c),
        Option::None => true,
    }
    &&& match r.hitbox {
        Option::Some(c) => hitbox_ok(c),
        Option::None => true,
    }
    &&& match r.hurtbox {
        Option::Some(c) => hurtbox_ok(c),
        Option::None => true,
    }
    &&& match r.health {
        Option::Some(c) => health_ok(c),
        Option::None => true,
    }
    &&& match r.lifespan {
        Option::Some(c) => c.0.wf(),
        Option::None => true,
    }
    &&& match r.player {
        Option::Some(c) => player_ok(c),
        Option::None => true,
    }
    &&& match r.reflect_within {
        Option::Some(c) => reflect_within_ok(c),
        Option::None => true,
    }
}

/// The two hitboxes agree on every attribute and hold the same hit list.
pub open spec fn hitbox_equiv(a: HitboxComponent, b: HitboxComponent) -> bool {
    &&& b.shape == a.shape
    &&& b.dbvt_index == a.dbvt_index
    &&& b.mask == a.mask
    &&& b.effect == a.effect
    &&& b.hit_entities@ == a.hit_entities@
}

/// The two hurtboxes agree on every attribute and hold the same hit-by
/// list.
pub open spec fn hurtbox_equiv(a: HurtboxComponent, b: HurtboxComponent) -> bool {
    &&& b.shape == a.shape
    &&& b.dbvt_index == a.dbvt_index
    &&& b.mask == a.mask
    &&& b.hit_by_entities@ == a.hit_by_entities@
}

/// Optional-component equivalence for hitboxes.
pub open spec fn opt_hitbox_equiv(a: Option<HitboxComponent>, b: Option<HitboxComponent>) -> bool {
    match (a, b) {
        (Option::None, Option::None) => true,
        (Option::Some(x), Option::Some(y)) => hitbox_equiv(x, y),
        _ => false,
    }
}

/// Optional-component equivalence for hurtboxes.
pub open spec fn opt_hurtbox_equiv(
    a: Option<HurtboxComponent>,
    b: Option<HurtboxComponent>,
) -> bool {
    match (a, b) {
        (Option::None, Option::None) => true,
        (Option::Some(x), Option::Some(y)) => hurtbox_equiv(x, y),
        _ => false,
    }
}

/// Both colliders agree between the two records.
pub open spec fn colliders_equiv(a: EntityRec, b: EntityRec) -> bool {
    opt_hitbox_equiv(a.hitbox, b.hitbox) && opt_hurtbox_equiv(a.hurtbox, b.hurtbox)
}

/// The two records hold the same state: equal plain components, and
/// colliders that agree attribute for attribute and list for list.
pub open spec fn rec_equiv(a: EntityRec, b: EntityRec) -> bool {
    &&& b.id == a.id
    &&& b.pos == a.pos
    &&& b.interpolate == a.interpolate
    &&& b.vel == a.vel
    &&& b.force == a.force
    &&& b.mass == a.mass
    &&& opt_hitbox_equiv(a.hitbox, b.hitbox)
    &&& opt_hurtbox_equiv(a.hurtbox, b.hurtbox)
    &&& b.health == a.health
    &&& b.lifespan == a.lifespan
    &&& b.remove_on_hit == a.remove_on_hit
    &&& b.player == a.player
    &&& b.reflect_within == a.reflect_within
}

/// Copy an identifier list element by element.
pub fn copy_entities(v: &Vec<Entity>) -> (r: Vec<Entity>)
    ensures
        r@ == v@,
{
    let mut r: Vec<Entity> = Vec::new();
    let n = v.len();
    let mut i: usize = 0;
    while i < n
        invariant
            n == v@.len(),
            i <= n,
            r@ == v@.subrange(0, i as int),
        decreases n - i,
    {
        r.push(v[i]);
        proof {
            assert(r@ =~= v@.subrange(0, i as int + 1));
        }
        i = i + 1;
    }
    proof {
        assert(r@ =~= v@);
    }
    r
}

/// Copy a hitbox, hit list included.
pub fn copy_hitbox(h: &HitboxComponent) -> (r: HitboxComponent)
    ensures
        hitbox_equiv(*h, r),
{
    HitboxComponent {
        shape: h.shape,
        dbvt_index: h.dbvt_index,
        mask: h.mask,
        effect: h.effect,
        hit_entities: copy_entities(&h.hit_entities),
    }
}

/// Copy a hurtbox, hit-by list included.
pub fn copy_hurtbox(h: &HurtboxComponent) -> (r: HurtboxComponent)
    ensures
        hurtbox_equiv(*h, r),
{
    HurtboxComponent {
        shape: h.shape,
        dbvt_index: h.dbvt_index,
        mask: h.mask,
        hit_by_entities: copy_entities(&h.hit_by_entities),
    }
}

/// Copy a whole record.
pub fn dup_rec(r: &EntityRec) -> (d: EntityRec)
    ensures
        rec_equiv(*r, d),
        rec_ok(*r) ==> rec_ok(d),
{
    EntityRec {
        id: r.id,
        pos: r.pos,
        interpolate: r.interpolate,
        vel: r.vel,
        force: r.force,
        mass: r.mass,
        hitbox: match &r.hitbox {
            Option::Some(h) => Option::Some(copy_hitbox(h)),
            Option::None => Option::None,
        },
        hurtbox: match &r.hurtbox {
            Option::Some(h) => Option::Some(copy_hurtbox(h)),
            Option::None => Option::None,
        },
        health: r.health,
        lifespan: r.lifespan,
        remove_on_hit: r.remove_on_hit,
        player: r.player,
        reflect_within: r.reflect_within,
    }
}

/// The same record with another identifier.
pub open spec fn with_id(r: EntityRec, id: Entity) -> EntityRec {
    EntityRec {
        id,
        pos: r.pos,
        interpolate: r.interpolate,
        vel: r.vel,
        force: r.force,
        mass: r.mass,
        hitbox: r.hitbox,
        hurtbox: r.hurtbox,
        health: r.health,
        lifespan: r.lifespan,
        remove_on_hit: r.remove_on_hit,
        player: r.player,
        reflect_within: r.reflect_within,
    }
}

/// Identifiers strictly increase along the sequence.
pub open spec fn ascending(v: Seq<EntityRec>) -> bool {
    forall|i: int, j: int| 0 <= i < j < v.len() ==> v[i].id.0 < v[j].id.0
}

/// The records that survive a removal list: those whose identifier is not
/// listed, in their original order.
pub open spec fn surviving(v: Seq<EntityRec>, removes: Seq<Entity>) -> Seq<EntityRec> {
    v.filter(|r: EntityRec| !removes.contains(r.id))
}

/// The spawned records, given identifiers counting up from `base`.
pub open spec fn assign_ids(s: Seq<EntityRec>, base: int) -> Seq<EntityRec> {
    Seq::new(s.len(), |i: int| with_id(s[i], Entity((base + i) as u64)))
}

/// The entity store. Records are kept in identifier order; identifiers are
/// allocated from a counter and never reused.
pub struct World {
    next_id: u64,
    ents: Vec<EntityRec>,
}

impl World {
    /// The stored records, in identifier order.
    pub closed spec fn view(self) -> Seq<EntityRec> {
        self.ents@
    }

    /// The next identifier to be allocated.
    pub closed spec fn next_id(self) -> int {
        self.next_id as int
    }

    /// Identifiers are strictly increasing, below the allocation counter,
    /// and every record is valid.
    pub open spec fn wf(self) -> bool {
        &&& ascending(self.view())
        &&& forall|i: int| 0 <= i < self.view().len() ==> #[trigger] self.view()[i].id.0 < self.next_id()
        &&& forall|i: int| 0 <= i < self.view().len() ==> rec_ok(#[trigger] self.view()[i])
    }

    /// Some record carries the identifier `e`.
    pub open spec fn has_id(self, e: Entity) -> bool {
        exists|i: int| 0 <= i < self.view().len() && self.view()[i].id == e
    }

    /// An empty store.
    pub fn new() -> (w: World)
        ensures
            w.view() == Seq::<EntityRec>::empty(),
            w.next_id() == 0,
            w.wf(),
    {
        World { next_id: 0, ents: Vec::new() }
    }

    /// The number of live entities.
    pub fn len(&self) -> (n: usize)
        ensures
            n == self.view().len(),
    {
        self.ents.len()
    }

    /// Read the record at index `i`.
    pub fn get(&self, i: usize) -> (r: &EntityRec)
        requires
            i < self.view().len(),
        ensures
            *r == self.view()[i as int],
    {
        &self.ents[i]
    }

    /// Replace the record at index `i`, keeping its identifier.
    pub fn set(&mut self, i: usize, rec: EntityRec)
        requires
            old(self).wf(),
            i < old(self).view().len(),
            rec_ok(rec),
            rec.id == old(self).view()[i as int].id,
        ensures
            final(self).view() == old(self).view().update(i as int, rec),
            final(self).next_id() == old(self).next_id(),
            final(self).wf(),
    {
        self.ents[i] = rec;
    }

    /// Add an entity, assigning it a fresh identifier, and return that
    /// identifier.
    pub fn push(&mut self, rec: EntityRec) -> (e: Entity)
        requires
            old(self).wf(),
            old(self).next_id() < u64::MAX as int,
            rec_ok(rec),
        ensures
            e == (Entity(old(self).next_id() as u64)),
            final(self).view() == old(self).view().push(with_id(rec, e)),
            final(self).next_id() == old(self).next_id() + 1,
            final(self).wf(),
            final(self).has_id(e),
    {
        let id = Entity(self.next_id);
        let mut rec = rec;
        rec.id = id;
        self.next_id = self.next_id + 1;
        self.ents.push(rec);
        proof {
            let v = self.view();
            assert(v[v.len() - 1].id == id);
            assert(self.has_id(id));
        }
        id
    }

    /// Find the index of the record with identifier `e`, if it is live.
    pub fn find(&self, e: Entity) -> (r: Option<usize>)
        ensures
            match r {
                Option::Some(i) => i < self.view().len() && self.view()[i as int].id == e,
                Option::None => !self.has_id(e),
            },
    {
        let n = self.ents.len();
        let mut i: usize = 0;
        while i < n
            invariant
                n == self.view().len(),
                i <= n,
                forall|j: int| 0 <= j < i ==> self.view()[j].id != e,
            decreases n - i,
        {
            if self.ents[i].id.0 == e.0 {
                return Option::Some(i);
            }
            i = i + 1;
        }
        Option::None
    }

    /// Remove every entity whose identifier is listed in `removes`. Listed
    /// identifiers that are stale or repeated are tolerated.
    pub fn remove_ids(&mut self, removes: &Vec<Entity>)
        requires
            old(self).wf(),
        ensures
            final(self).view() == surviving(old(self).view(), removes@),
            final(self).next_id() == old(self).next_id(),
            final(self).wf(),
            forall|e: Entity| removes@.contains(e) ==> !final(self).has_id(e),
    {
        let ghost orig = self.ents@;
        let ghost pred = |r: EntityRec| !removes@.contains(r.id);
        let mut old_ents: Vec<EntityRec> = Vec::new();
        core::mem::swap(&mut old_ents, &mut self.ents);
        let mut k: usize = 0;
        let ghost orig_len = orig.len();
        let ghost nid0 = self.next_id();
        let n_total = old_ents.len();
        proof {
            assert(orig_len == n_total);
        }
        proof {
            reveal_with_fuel(Seq::filter, 2);
            assert(orig.subrange(0, 0) =~= Seq::<EntityRec>::empty());
            assert(self.ents@ =~= surviving(orig.subrange(0, 0), removes@));
        }
        while old_ents.len() > 0
            invariant
                orig.len() == orig_len,
                orig_len <= usize::MAX,
                k <= orig_len,
                self.next_id() == nid0,
                old_ents@ == orig.subrange(k as int, orig_len as int),
                self.ents@ == surviving(orig.subrange(0, k as int), removes@),
                ascending(orig),
                forall|i: int, j: int|
                    0 <= i < j < self.ents@.len() ==> self.ents@[i].id.0 < self.ents@[j].id.0,
                forall|i: int|
                    0 <= i < self.ents@.len() ==> #[trigger] self.ents@[i].id.0 < self.next_id,
                forall|i: int| 0 <= i < self.ents@.len() ==> rec_ok(#[trigger] self.ents@[i]),
                forall|i: int|
                    0 <= i < self.ents@.len() && k < orig_len ==> #[trigger] self.ents@[i].id.0
                        < orig[k as int].id.0,
                forall|i: int|
                    0 <= i < orig.len() ==> #[trigger] orig[i].id.0 < self.next_id,
                forall|i: int| 0 <= i < orig.len() ==> rec_ok(#[trigger] orig[i]),
                forall|i: int|
                    0 <= i < self.ents@.len() ==> !removes@.contains(#[trigger] self.ents@[i].id),
            decreases old_ents@.len(),
        {
            let r = old_ents.remove(0);
            proof {
                assert(r == orig[k as int]);
                assert(old_ents@ =~= orig.subrange(k as int + 1, orig_len as int));
            }
            let keep = !contains_id(removes, r.id);
            let ghost pre = self.ents@;
            if keep {
                self.ents.push(r);
            }
            proof {
                let t = orig.subrange(0, k as int + 1);
                assert(t.drop_last() =~= orig.subrange(0, k as int));
                assert(t.last() == orig[k as int]);
                reveal_with_fuel(Seq::filter, 2);
                assert(t.filter(pred) == if pred(t.last()) {
                    t.drop_last().filter(pred).push(t.last())
                } else {
                    t.drop_last().filter(pred)
                });
                assert(self.ents@ =~= surviving(orig.subrange(0, k as int + 1), removes@));
            }
            k = k + 1;
        }
        proof {
            assert(orig.subrange(0, orig_len as int) =~= orig);
            assert(self.view() == surviving(orig, removes@));
            assert forall|e: Entity| removes@.contains(e) implies !self.has_id(e) by {
                if self.has_id(e) {
                    let i = choose|i: int| 0 <= i < self.view().len() && self.view()[i].id == e;
                    assert(!removes@.contains(self.view()[i].id));
                }
            }
        }
    }

    /// Remove every entity, keeping the identifier counter so identifiers
    /// are still never reused.
    pub fn clear(&mut self)
        ensures
            final(self).view() == Seq::<EntityRec>::empty(),
            final(self).next_id() == old(self).next_id(),
            final(self).wf(),
    {
        self.ents.clear();
    }

    /// Apply a command buffer: removals first, then spawns, which get fresh
    /// identifiers in order.
    pub fn apply(&mut self, cmd: CommandBuffer)
        requires
            old(self).wf(),
            cmd.wf(),
            old(self).next_id() + cmd.spawns@.len() < u64::MAX as int,
        ensures
            final(self).view() == surviving(old(self).view(), cmd.removes@) + assign_ids(
                cmd.spawns@,
                old(self).next_id(),
            ),
            final(self).next_id() == old(self).next_id() + cmd.spawns@.len(),
            final(self).wf(),
            forall|e: Entity|
                cmd.removes@.contains(e) && e.0 < old(self).next_id() ==> !final(self).has_id(e),
    {
        let ghost base = self.next_id as int;
        let ghost survivors = surviving(self.ents@, cmd.removes@);
        self.remove_ids(&cmd.removes);
        let mut spawns = cmd.spawns;
        let ghost spawn_seq = spawns@;
        let mut k: usize = 0;
        let ghost total = spawn_seq.len();
        let n_total = spawns.len();
        proof {
            assert(total == n_total);
        }
        proof {
            assert(assign_ids(spawn_seq, base).subrange(0, 0) =~= Seq::<EntityRec>::empty());
            assert(self.view() =~= survivors + assign_ids(spawn_seq, base).subrange(0, 0));
        }
        while spawns.len() > 0
            invariant
                spawn_seq.len() == total,
                total <= usize::MAX,
                k <= total,
                spawns@ == spawn_seq.subrange(k as int, total as int),
                self.wf(),
                self.next_id() == base + k,
                base + total < u64::MAX as int,
                self.view() == survivors + assign_ids(spawn_seq, base).subrange(0, k as int),
                forall|i: int| 0 <= i < spawn_seq.len() ==> rec_ok(#[trigger] spawn_seq[i]),
            decreases spawns@.len(),
        {
            let rec = spawns.remove(0);
            proof {
                assert(rec == spawn_seq[k as int]);
                assert(spawns@ =~= spawn_seq.subrange(k as int + 1, total as int));
            }
            self.push(rec);
            proof {
                assert(self.view() =~= survivors + assign_ids(spawn_seq, base).subrange(
                    0,
                    k as int + 1,
                ));
            }
            k = k + 1;
        }
        proof {
            assert(assign_ids(spawn_seq, base).subrange(0, total as int) =~= assign_ids(
                spawn_seq,
                base,
            ));
            assert(self.view() == survivors + assign_ids(spawn_seq, base));
            assert forall|e: Entity|
                cmd.removes@.contains(e) && e.0 < base implies !self.has_id(e) by {
                if self.has_id(e) {
                    let i = choose|i: int| 0 <= i < self.view().len() && self.view()[i].id == e;
                    let a = assign_ids(spawn_seq, base);
                    if i < survivors.len() {
                        assert(survivors[i] == self.view()[i]);
                        old(self).view().lemma_filter_pred(
                            |r: EntityRec| !cmd.removes@.contains(r.id),
                            i,
                        );
                    } else {
                        assert(a[i - survivors.len()] == self.view()[i]);
                    }
                }
            }
        }
    }
}

/// In an ascending sequence, an identifier determines its index.
pub proof fn lemma_id_unique(w: Seq<EntityRec>, a: int, b: int)
    requires
        ascending(w),
        0 <= a < w.len(),
        0 <= b < w.len(),
        w[a].id == w[b].id,
    ensures
        a == b,
{
    if a < b {
        assert(w[a].id.0 < w[b].id.0);
    } else if b < a {
        assert(w[b].id.0 < w[a].id.0);
    }
}

/// Appending one justified identifier to a removal list keeps every listed
/// identifier justified and keeps everything already listed.
pub proof fn lemma_removes_extend(
    pre: Seq<Entity>,
    post: Seq<Entity>,
    base: int,
    p: spec_fn(Entity) -> bool,
    x: Entity,
)
    requires
        post == pre.push(x),
        0 <= base <= pre.len(),
        forall|j: int| base <= j < pre.len() ==> p(#[trigger] pre[j]),
        p(x),
    ensures
        forall|j: int| base <= j < post.len() ==> p(#[trigger] post[j]),
        forall|e: Entity| pre.contains(e) ==> post.contains(e),
        post.contains(x),
        post.subrange(0, base) == pre.subrange(0, base),
{
    assert forall|j: int| base <= j < post.len() implies p(post[j]) by {
        if j < pre.len() {
            assert(post[j] == pre[j]);
        } else {
            assert(post[j] == x);
        }
    }
    assert forall|e: Entity| pre.contains(e) implies post.contains(e) by {
        let jj = choose|jj: int| 0 <= jj < pre.len() && pre[jj] == e;
        assert(post[jj] == e);
    }
    assert(post[pre.len() as int] == x);
    assert(post.subrange(0, base) =~= pre.subrange(0, base));
}

/// Appending one justified element keeps every listed element justified,
/// keeps the prefix, and keeps everything already present.
pub proof fn lemma_push_justified<T>(pre: Seq<T>, post: Seq<T>, base: int, p: spec_fn(T) -> bool, x: T)
    requires
        post == pre.push(x),
        0 <= base <= pre.len(),
        forall|j: int| base <= j < pre.len() ==> p(#[trigger] pre[j]),
        p(x),
    ensures
        forall|j: int| base <= j < post.len() ==> p(#[trigger] post[j]),
        forall|j: int| 0 <= j < pre.len() ==> #[trigger] post[j] == pre[j],
        post[pre.len() as int] == x,
        post.subrange(0, base) == pre.subrange(0, base),
{
    assert forall|j: int| base <= j < post.len() implies p(post[j]) by {
        if j < pre.len() {
            assert(post[j] == pre[j]);
        } else {
            assert(post[j] == x);
        }
    }
    assert(post.subrange(0, base) =~= pre.subrange(0, base));
}

/// The sequence holds pairwise distinct identifiers.
pub open spec fn nodup_entities(s: Seq<Entity>) -> bool {
    forall|p: int, q: int| 0 <= p < q < s.len() ==> s[p] != s[q]
}

/// Pushing an identifier that is not yet present keeps the entries
/// pairwise distinct.
pub proof fn lemma_nodup_push(s: Seq<Entity>, x: Entity)
    requires
        nodup_entities(s),
        !s.contains(x),
    ensures
        nodup_entities(s.push(x)),
{
    assert forall|p: int, q: int| 0 <= p < q < s.push(x).len() implies s.push(x)[p] != s.push(
        x,
    )[q] by {
        if q < s.len() {
            assert(s.push(x)[p] == s[p] && s.push(x)[q] == s[q]);
        } else {
            assert(s.push(x)[q] == x && s.push(x)[p] == s[p]);
            if s[p] == x {
                assert(s.contains(x));
            }
        }
    }
}

/// Membership in a sequence after a push.
pub broadcast proof fn lemma_push_contains<T>(s: Seq<T>, x: T, y: T)
    ensures
        #[trigger] s.push(x).contains(y) <==> s.contains(y) || y == x,
{
    if s.contains(y) {
        let i = choose|i: int| 0 <= i < s.len() && s[i] == y;
        assert(s.push(x)[i] == y);
    }
    if y == x {
        assert(s.push(x)[s.len() as int] == y);
    }
    if s.push(x).contains(y) {
        let i = choose|i: int| 0 <= i < s.push(x).len() && s.push(x)[i] == y;
        if i < s.len() {
            assert(s[i] == y);
        }
    }
}

/// Whether the identifier list contains `e`.
pub fn contains_id(v: &Vec<Entity>, e: Entity) -> (r: bool)
    ensures
        r == v@.contains(e),
{
    let n = v.len();
    let mut i: usize = 0;
    while i < n
        invariant
            n == v@.len(),
            i <= n,
            forall|j: int| 0 <= j < i ==> v@[j] != e,
        decreases n - i,
    {
        if v[i].0 == e.0 {
            proof {
                assert(v@[i as int] == e);
            }
            return true;
        }
        i = i + 1;
    }
    false
}

/// Deferred structural mutation: removal and spawn intents recorded during
/// a pass and applied by the scheduler strictly after the pass completes.
pub struct CommandBuffer {
    pub removes: Vec<Entity>,
    pub spawns: Vec<EntityRec>,
}

impl CommandBuffer {
    /// Every spawned record is valid.
    pub open spec fn wf(self) -> bool {
        forall|i: int| 0 <= i < self.spawns@.len() ==> rec_ok(#[trigger] self.spawns@[i])
    }

    /// An empty buffer.
    pub fn new() -> (c: CommandBuffer)
        ensures
            c.removes@ == Seq::<Entity>::empty(),
            c.spawns@ == Seq::<EntityRec>::empty(),
            c.wf(),
    {
        CommandBuffer { removes: Vec::new(), spawns: Vec::new() }
    }

    /// Record that the entity should be removed when the buffer is applied.
    pub fn remove(&mut self, e: Entity)
        ensures
            final(self).removes@ == old(self).removes@.push(e),
            final(self).spawns@ == old(self).spawns@,
            old(self).wf() ==> final(self).wf(),
    {
        self.removes.push(e);
    }

    /// Record a record to spawn when the buffer is applied.
    pub fn push(&mut self, rec: EntityRec)
        requires
            rec_ok(rec),
        ensures
            final(self).spawns@ == old(self).spawns@.push(rec),
            final(self).removes@ == old(self).removes@,
            old(self).wf() ==> final(self).wf(),
    {
        self.spawns.push(rec);
    }
}

} // verus!
