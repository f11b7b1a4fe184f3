use twin_stick_shooter_core::fix::{v2_add, v2_sub, v2_scale_div, normalize_to, Vec2};
use twin_stick_shooter_core::game::Game;
use twin_stick_shooter_core::interpolate::{interpolate, InterpolateComponent};
use twin_stick_shooter_core::physics::{physics, ForceComponent, MassComponent, VelocityComponent};
use twin_stick_shooter_core::position::PositionComponent;
use twin_stick_shooter_core::reflect::{reflect_within, ReflectWithin};
use twin_stick_shooter_core::resource::{Subframe, Time};
use twin_stick_shooter_core::store::{EntityRec, World};
use twin_stick_shooter_core::util::{clamp_magnitude, UnitDisc};

#[test]
fn integration_advances_position_and_applies_force() {
    let mut world = World::new();
    let mut rec = EntityRec::new();
    rec.pos = Some(PositionComponent(Vec2 { x: 1000, y: 0 }));
    rec.vel = Some(VelocityComponent(Vec2 { x: 2000, y: 0 }));
    rec.mass = Some(MassComponent::new(1000));
    rec.force = Some(ForceComponent(Vec2 { x: 0, y: 4000000 }));
    rec.interpolate = Some(InterpolateComponent {
        prev_pos: Vec2 { x: 0, y: 0 },
        interpolated_pos: Vec2 { x: 0, y: 0 },
    });
    let e = world.push(rec);

    // dt 500 ms; inv_mass == 1000 for one unit of mass, so the velocity
    // gains force * dt / 1000 == 2_000_000 on y, then the position advances
    // by vel * dt / 1000.
    physics(&mut world, &Time { elapsed_millis: 500 });

    let idx = world.find(e).unwrap();
    let r = world.get(idx);
    let vel = r.vel.as_ref().unwrap().0;
    assert_eq!(vel, Vec2 { x: 2000, y: 2000000 });
    assert_eq!(r.pos.as_ref().unwrap().0, Vec2 { x: 2000, y: 1000000 });
    // The previous position was captured before the advance.
    assert_eq!(r.interpolate.as_ref().unwrap().prev_pos, Vec2 { x: 1000, y: 0 });
    // The force accumulator was zeroed after application.
    assert_eq!(r.force.as_ref().unwrap().0, Vec2 { x: 0, y: 0 });
}

#[test]
fn outward_motion_at_boundary_is_negated() {
    let mut world = World::new();
    let mut rec = EntityRec::new();
    rec.pos = Some(PositionComponent(Vec2 { x: 5000, y: 0 }));
    rec.vel = Some(VelocityComponent(Vec2 { x: 300, y: 0 }));
    rec.reflect_within = Some(ReflectWithin(5000));
    let e = world.push(rec);
    reflect_within(&mut world);
    let idx = world.find(e).unwrap();
    assert_eq!(world.get(idx).vel.as_ref().unwrap().0, Vec2 { x: -300, y: 0 });
}

#[test]
fn tangential_and_inward_motion_are_unaffected() {
    let mut world = World::new();
    let mut rec = EntityRec::new();
    rec.pos = Some(PositionComponent(Vec2 { x: 5000, y: 0 }));
    rec.vel = Some(VelocityComponent(Vec2 { x: 0, y: 300 }));
    rec.reflect_within = Some(ReflectWithin(5000));
    let tangential = world.push(rec);

    let mut rec = EntityRec::new();
    rec.pos = Some(PositionComponent(Vec2 { x: 5000, y: 0 }));
    rec.vel = Some(VelocityComponent(Vec2 { x: -300, y: 0 }));
    rec.reflect_within = Some(ReflectWithin(5000));
    let inward = world.push(rec);

    reflect_within(&mut world);
    let t = world.find(tangential).unwrap();
    assert_eq!(world.get(t).vel.as_ref().unwrap().0, Vec2 { x: 0, y: 300 });
    let i = world.find(inward).unwrap();
    assert_eq!(world.get(i).vel.as_ref().unwrap().0, Vec2 { x: -300, y: 0 });
}

#[test]
fn interpolate_at_zero_reproduces_prev_and_is_monotone() {
    let mut world = World::new();
    let mut rec = EntityRec::new();
    rec.pos = Some(PositionComponent(Vec2 { x: 1000, y: -500 }));
    rec.interpolate = Some(InterpolateComponent {
        prev_pos: Vec2 { x: 0, y: 0 },
        interpolated_pos: Vec2 { x: 77, y: 77 },
    });
    let e = world.push(rec);

    let read = |world: &World| -> Vec2 {
        let idx = world.find(e).unwrap();
        world.get(idx).interpolate.as_ref().unwrap().interpolated_pos
    };

    interpolate(&mut world, &Subframe(0));
    assert_eq!(read(&world), Vec2 { x: 0, y: 0 });

    interpolate(&mut world, &Subframe(250));
    let quarter = read(&world);
    assert_eq!(quarter, Vec2 { x: 250, y: -125 });

    interpolate(&mut world, &Subframe(500));
    let half = read(&world);
    assert_eq!(half, Vec2 { x: 500, y: -250 });
    assert!(quarter.x <= half.x && half.y <= quarter.y);

    interpolate(&mut world, &Subframe(999));
    let almost = read(&world);
    assert_eq!(almost, Vec2 { x: 999, y: -499 });
}

#[test]
fn interpolate_is_idempotent_between_steps() {
    let mut world = World::new();
    let mut rec = EntityRec::new();
    rec.pos = Some(PositionComponent(Vec2 { x: 123, y: 456 }));
    rec.interpolate = Some(InterpolateComponent {
        prev_pos: Vec2 { x: -9, y: 4 },
        interpolated_pos: Vec2 { x: 0, y: 0 },
    });
    let e = world.push(rec);
    interpolate(&mut world, &Subframe(700));
    let idx = world.find(e).unwrap();
    let first = world.get(idx).interpolate.as_ref().unwrap().interpolated_pos;
    interpolate(&mut world, &Subframe(700));
    interpolate(&mut world, &Subframe(700));
    let idx = world.find(e).unwrap();
    let again = world.get(idx).interpolate.as_ref().unwrap().interpolated_pos;
    assert_eq!(first, again);
}

#[test]
fn vector_helpers_compute_exactly() {
    let a = Vec2 { x: 3000, y: 4000 };
    assert_eq!(v2_add(a, Vec2 { x: 1, y: -1 }), Vec2 { x: 3001, y: 3999 });
    assert_eq!(v2_sub(a, Vec2 { x: 1000, y: 1000 }), Vec2 { x: 2000, y: 3000 });
    assert_eq!(v2_scale_div(a, 3, 2), Vec2 { x: 4500, y: 6000 });
    // |(3000, 4000)| == 5000 exactly.
    assert_eq!(normalize_to(a, 1000), Vec2 { x: 600, y: 800 });
    assert_eq!(clamp_magnitude(a, 0, 4000), Vec2 { x: 2400, y: 3200 });
    assert_eq!(clamp_magnitude(a, 0, 6000), a);
    assert_eq!(clamp_magnitude(Vec2 { x: 30, y: 40 }, 500, 6000), Vec2 { x: 300, y: 400 });
}

#[test]
fn unit_disc_samples_lie_in_the_disc() {
    let mut game = Game::new();
    for _ in 0..32 {
        let p = UnitDisc.sample(&mut game.rng);
        assert!(p.x * p.x + p.y * p.y <= 1000000);
    }
}
