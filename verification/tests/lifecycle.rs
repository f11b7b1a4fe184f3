use twin_stick_shooter_core::collision::Shape;
use twin_stick_shooter_core::bullet::LifespanComponent;
use twin_stick_shooter_core::fix::Vec2;
use twin_stick_shooter_core::game::Game;
use twin_stick_shooter_core::health::HealthComponent;
use twin_stick_shooter_core::hitbox::{HitboxComponent, HitboxEffect, HitboxMask, HurtboxComponent};
use twin_stick_shooter_core::position::PositionComponent;
use twin_stick_shooter_core::resource::Input;
use twin_stick_shooter_core::store::EntityRec;
use twin_stick_shooter_core::timer::Timer;

fn idle_input() -> Input {
    Input {
        move_: Vec2 { x: 0, y: 0 },
        aim: Vec2 { x: 0, y: 0 },
        fire: false,
        dpad_up: false,
        dpad_down: false,
        confirm: false,
        start: false,
    }
}

#[test]
fn lifespan_elapses_in_one_step() {
    // 50 ms remaining, stepped by 100 ms: removed.
    let mut game = Game::new();
    let mut rec = EntityRec::new();
    rec.lifespan = Some(LifespanComponent(Timer::with_remaining(50)));
    let e = game.world.push(rec);
    game.step(100, idle_input());
    assert!(game.world.find(e).is_none());
}

#[test]
fn lifespan_elapses_cumulatively() {
    // 50 ms remaining, stepped twice by 30 ms: alive after the first step,
    // removed after the second.
    let mut game = Game::new();
    let mut rec = EntityRec::new();
    rec.lifespan = Some(LifespanComponent(Timer::with_remaining(50)));
    let e = game.world.push(rec);
    game.step(30, idle_input());
    assert!(game.world.find(e).is_some());
    game.step(30, idle_input());
    assert!(game.world.find(e).is_none());
}

#[test]
fn overkill_damage_clamps_to_zero_and_removes() {
    let mut game = Game::new();

    let mut target = EntityRec::new();
    target.pos = Some(PositionComponent(Vec2 { x: 0, y: 0 }));
    target.health = Some(HealthComponent::new(1000));
    target.hurtbox = Some(HurtboxComponent {
        shape: Shape::Circle { radius: 2000 },
        dbvt_index: None,
        mask: HitboxMask::target(),
        hit_by_entities: vec![],
    });
    let target_id = game.world.push(target);

    let mut striker = EntityRec::new();
    striker.pos = Some(PositionComponent(Vec2 { x: 500, y: 0 }));
    striker.hitbox = Some(HitboxComponent {
        shape: Shape::Circle { radius: 2000 },
        dbvt_index: None,
        mask: HitboxMask::target(),
        effect: HitboxEffect::Damage(5000),
        hit_entities: vec![],
    });
    game.world.push(striker);

    game.step(10, idle_input());
    // Damage exceeded the remaining health: clamped to exactly zero and
    // removed by the end of the same tick.
    assert!(game.world.find(target_id).is_none());
}

#[test]
fn partial_damage_subtracts_exactly() {
    let mut game = Game::new();

    let mut target = EntityRec::new();
    target.pos = Some(PositionComponent(Vec2 { x: 0, y: 0 }));
    target.health = Some(HealthComponent::new(3000));
    target.hurtbox = Some(HurtboxComponent {
        shape: Shape::Circle { radius: 2000 },
        dbvt_index: None,
        mask: HitboxMask::target(),
        hit_by_entities: vec![],
    });
    let target_id = game.world.push(target);

    let mut striker = EntityRec::new();
    striker.pos = Some(PositionComponent(Vec2 { x: 500, y: 0 }));
    striker.hitbox = Some(HitboxComponent {
        shape: Shape::Circle { radius: 2000 },
        dbvt_index: None,
        mask: HitboxMask::target(),
        effect: HitboxEffect::Damage(1000),
        hit_entities: vec![],
    });
    game.world.push(striker);

    game.step(10, idle_input());
    let idx = game.world.find(target_id).unwrap();
    let health = game.world.get(idx).health.as_ref().unwrap();
    assert_eq!(health.health, 2000);
    assert!(health.is_hit_flashing());
}

#[test]
fn reset_empties_the_store() {
    let mut game = Game::new();
    let mut rec = EntityRec::new();
    rec.pos = Some(PositionComponent(Vec2 { x: 1, y: 2 }));
    game.world.push(rec);
    game.world.push(EntityRec::new());
    assert_eq!(game.world.len(), 2);

    game.reset();
    assert_eq!(game.world.len(), 0);
    assert!(!game.is_paused());

    // After a reset, step and interpolate complete as no-ops.
    game.step(10, idle_input());
    assert_eq!(game.world.len(), 0);
    game.interpolate(twin_stick_shooter_core::resource::Subframe(500));
    assert_eq!(game.world.len(), 0);
}

#[test]
fn timer_counts_down_and_clamps() {
    let mut t = Timer::with_remaining(70);
    let time = twin_stick_shooter_core::resource::Time { elapsed_millis: 30 };
    assert!(!t.step_and_is_elapsed(&time));
    assert!(!t.step_and_is_elapsed(&time));
    assert!(t.step_and_is_elapsed(&time));
    assert!(t.is_elapsed());
    t.reset(10);
    assert!(!t.is_elapsed());
    t.elapse_now();
    assert!(t.is_elapsed());
}
