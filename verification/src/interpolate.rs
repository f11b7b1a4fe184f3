//! Render-facing interpolation state and the interpolation pass.

use vstd::prelude::*;
use crate::fix::{
    lemma_tdiv_monotone, lemma_tdiv_scale_bound, sat_i128, tdiv, tdiv_i128, v2_ok, Vec2,
};
use crate::resource::Subframe;
use crate::store::{dup_rec, rec_equiv, EntityRec, World};

verus! {

/// The position at the start of the tick, captured before integration, and
/// the render-facing position interpolated between it and the current
/// position.
#[derive(Clone, Copy, Debug)]
pub struct InterpolateComponent {
    pub prev_pos: Vec2,
    pub interpolated_pos: Vec2,
}

/// Both stored positions are representable.
pub open spec fn interpolate_ok(c: InterpolateComponent) -> bool {
    v2_ok(c.prev_pos) && v2_ok(c.interpolated_pos)
}

/// Linear interpolation of one scalar: `prev + (cur - prev) * s / 1000`,
/// rounded toward zero. For `0 <= s < 1000` the result lies between `prev`
/// and `cur`, so no saturation is needed.
pub open spec fn lerp1(prev: int, cur: int, s: int) -> int {
    prev + tdiv((cur - prev) * s, 1000)
}

/// Linear interpolation of a position by the subframe factor `s` in
/// thousandths.
pub open spec fn lerp(prev: Vec2, cur: Vec2, s: int) -> Vec2 {
    Vec2 { x: lerp1(prev.x as int, cur.x as int, s) as i64, y: lerp1(prev.y as int, cur.y as int, s) as i64 }
}

/// The interpolated scalar lies between its endpoints, reproduces `prev`
/// exactly at zero, and moves monotonically from `prev` toward `cur` as the
/// subframe factor grows.
pub proof fn lemma_lerp1_props(prev: int, cur: int, s1: int, s2: int)
    requires
        0 <= s1 < 1000,
        0 <= s2 < 1000,
    ensures
        lerp1(prev, cur, 0) == prev,
        prev <= cur ==> prev <= lerp1(prev, cur, s1) <= cur,
        cur <= prev ==> cur <= lerp1(prev, cur, s1) <= prev,
        s1 <= s2 && prev <= cur ==> lerp1(prev, cur, s1) <= lerp1(prev, cur, s2),
        s1 <= s2 && cur <= prev ==> lerp1(prev, cur, s2) <= lerp1(prev, cur, s1),
{
    let d = cur - prev;
    assert(d * 0 == 0) by (nonlinear_arith);
    assert(tdiv(0, 1000) == 0);
    lemma_tdiv_scale_bound(d, s1, 1000);
    lemma_tdiv_scale_bound(d, s2, 1000);
    if s1 <= s2 {
        if d >= 0 {
            assert(d * s1 <= d * s2) by (nonlinear_arith)
                requires
                    d >= 0 && s1 <= s2,
            ;
            lemma_tdiv_monotone(d * s1, d * s2, 1000);
        } else {
            assert(d * s2 <= d * s1) by (nonlinear_arith)
                requires
                    d < 0 && s1 <= s2,
            ;
            lemma_tdiv_monotone(d * s2, d * s1, 1000);
        }
    }
}

/// Compute the interpolated position.
fn lerp_exec(prev: Vec2, cur: Vec2, s: u32) -> (r: Vec2)
    requires
        v2_ok(prev),
        v2_ok(cur),
        s < 1000,
    ensures
        r == lerp(prev, cur, s as int),
        v2_ok(r),
{
    proof {
        lemma_lerp1_props(prev.x as int, cur.x as int, s as int, s as int);
        lemma_lerp1_props(prev.y as int, cur.y as int, s as int, s as int);
        crate::fix::lemma_mul_bounds(
            cur.x - prev.x,
            2 * crate::fix::FIX_BOUND as int,
            s as int,
            1000,
        );
        crate::fix::lemma_mul_bounds(
            cur.y - prev.y,
            2 * crate::fix::FIX_BOUND as int,
            s as int,
            1000,
        );
    }
    let dx: i128 = tdiv_i128((cur.x as i128 - prev.x as i128) * s as i128, 1000);
    let dy: i128 = tdiv_i128((cur.y as i128 - prev.y as i128) * s as i128, 1000);
    Vec2 { x: (prev.x as i128 + dx) as i64, y: (prev.y as i128 + dy) as i64 }
}

/// What the interpolation pass does to one record: an entity with Position
/// and interpolation state has its render-facing position set to the
/// interpolation between the previous and current positions; everything
/// else, the previous position included, is untouched.
pub open spec fn interp_rec(o: EntityRec, s: int) -> EntityRec {
    if o.pos is Some && o.interpolate is Some {
        EntityRec {
            id: o.id,
            pos: o.pos,
            interpolate: Option::Some(
                InterpolateComponent {
                    prev_pos: (o.interpolate->0).prev_pos,
                    interpolated_pos: lerp((o.interpolate->0).prev_pos, (o.pos->0).0, s),
                },
            ),
            vel: o.vel,
            force: o.force,
            mass: o.mass,
            hitbox: o.hitbox,
            hurtbox: o.hurtbox,
            health: o.health,
            lifespan: o.lifespan,
            remove_on_hit: o.remove_on_hit,
            player: o.player,
            reflect_within: o.reflect_within,
        }
    } else {
        o
    }
}

/// Interpolating twice with the same subframe gives the same record as
/// interpolating once: the pass writes only the render-facing position,
/// which is a pure function of the previous and current positions and the
/// subframe factor.
pub proof fn lemma_interpolate_idempotent(o: EntityRec, s: int)
    ensures
        interp_rec(interp_rec(o, s), s) == interp_rec(o, s),
{
}

/// The interpolation pass respects record equivalence: equivalent records
/// interpolate to equivalent records.
pub proof fn lemma_interp_rec_equiv(a: EntityRec, b: EntityRec, s: int)
    requires
        rec_equiv(a, b),
    ensures
        rec_equiv(interp_rec(a, s), interp_rec(b, s)),
{
}

/// Interpolation: for every entity with Position and interpolation state,
/// write the render-facing position `lerp(prev, pos, s)`. The pass mutates
/// no gameplay state and is idempotent for a fixed subframe.
pub fn interpolate(world: &mut World, subframe: &Subframe)
    requires
        old(world).wf(),
        subframe.0 < 1000,
    ensures
        final(world).wf(),
        final(world).view().len() == old(world).view().len(),
        final(world).next_id() == old(world).next_id(),
        forall|i: int|
            0 <= i < old(world).view().len() ==> rec_equiv(
                interp_rec(old(world).view()[i], subframe.0 as int),
                #[trigger] final(world).view()[i],
            ),
{
    let ghost s = subframe.0 as int;
    let n = world.len();
    let mut i: usize = 0;
    while i < n
        invariant
            world.wf(),
            n == old(world).view().len(),
            world.view().len() == n,
            world.next_id() == old(world).next_id(),
            i <= n,
            s == subframe.0 as int,
            subframe.0 < 1000,
            forall|j: int|
                0 <= j < i ==> rec_equiv(
                    interp_rec(old(world).view()[j], s),
                    #[trigger] world.view()[j],
                ),
            forall|j: int| i <= j < n ==> #[trigger] world.view()[j] == old(world).view()[j],
        decreases n - i,
    {
        let has = {
            let r = world.get(i);
            r.pos.is_some() && r.interpolate.is_some()
        };
        if has {
            let mut rec = dup_rec(world.get(i));
            let pos0: Vec2 = match rec.pos {
                Option::Some(c) => c.0,
                Option::None => vstd::pervasive::unreached(),
            };
            let prev0: Vec2 = match rec.interpolate {
                Option::Some(c) => c.prev_pos,
                Option::None => vstd::pervasive::unreached(),
            };
            rec.interpolate = Option::Some(
                InterpolateComponent {
                    prev_pos: prev0,
                    interpolated_pos: lerp_exec(prev0, pos0, subframe.0),
                },
            );
            world.set(i, rec);
        }
        i = i + 1;
    }
}

} // verus!
