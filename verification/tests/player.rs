use twin_stick_shooter_core::collision::Shape;
use twin_stick_shooter_core::fix::Vec2;
use twin_stick_shooter_core::game::Game;
use twin_stick_shooter_core::hitbox::{HitboxComponent, HitboxEffect, HitboxMask, HurtboxComponent};
use twin_stick_shooter_core::physics::{ForceComponent, MassComponent, VelocityComponent};
use twin_stick_shooter_core::player::{Inventory, PlayerComponent};
use twin_stick_shooter_core::position::PositionComponent;
use twin_stick_shooter_core::resource::{GuiOverride, GuiOverrideQueue, Input};
use twin_stick_shooter_core::store::EntityRec;
use twin_stick_shooter_core::timer::Timer;
use twin_stick_shooter_core::util::OneShotButton;

fn player_rec() -> EntityRec {
    let mut rec = EntityRec::new();
    rec.pos = Some(PositionComponent(Vec2 { x: 0, y: 0 }));
    rec.vel = Some(VelocityComponent(Vec2 { x: 0, y: 0 }));
    rec.force = Some(ForceComponent(Vec2 { x: 0, y: 0 }));
    rec.mass = Some(MassComponent::new(1000));
    rec.player = Some(PlayerComponent {
        shoot_cooldown: Timer::elapsed(),
        inventory: Inventory {},
        docked_to: None,
        shoot: None,
    });
    rec
}

fn fire_input() -> Input {
    Input {
        move_: Vec2 { x: 0, y: 0 },
        aim: Vec2 { x: 0, y: 1000 },
        fire: true,
        dpad_up: false,
        dpad_down: false,
        confirm: false,
        start: false,
    }
}

#[test]
fn firing_spawns_one_bullet() {
    let mut game = Game::new();
    game.world.push(player_rec());
    assert_eq!(game.world.len(), 1);
    game.step(10, fire_input());
    // The bullet spawned 20 units ahead along the aim direction, moving at
    // the muzzle speed, and lives this tick.
    assert_eq!(game.world.len(), 2);
    let bullet = game.world.get(1);
    assert_eq!(bullet.pos.as_ref().unwrap().0, Vec2 { x: 0, y: 20000 });
    assert_eq!(bullet.vel.as_ref().unwrap().0, Vec2 { x: 0, y: 1000000 });
    assert!(bullet.remove_on_hit.is_some());
    let hb = bullet.hitbox.as_ref().unwrap();
    assert!(matches!(hb.shape, Shape::Circle { radius: 5000 }));
    assert!(matches!(hb.effect, HitboxEffect::Damage(1000)));
}

#[test]
fn cooldown_suppresses_the_second_shot() {
    let mut game = Game::new();
    game.world.push(player_rec());
    game.step(10, fire_input());
    assert_eq!(game.world.len(), 2);
    // The 100 ms cooldown has 90 ms left after one 10 ms step, so holding
    // fire does not shoot again yet.
    game.step(10, fire_input());
    assert_eq!(game.world.len(), 2);
}

#[test]
fn docking_strike_records_station_and_queues_override() {
    let mut game = Game::new();

    let mut station = EntityRec::new();
    station.pos = Some(PositionComponent(Vec2 { x: 1000, y: 0 }));
    station.hitbox = Some(HitboxComponent {
        shape: Shape::Circle { radius: 5000 },
        dbvt_index: None,
        mask: HitboxMask::player(),
        effect: HitboxEffect::StationDock,
        hit_entities: vec![],
    });
    let station_id = game.world.push(station);

    let mut player = player_rec();
    player.hurtbox = Some(HurtboxComponent {
        shape: Shape::Circle { radius: 2000 },
        dbvt_index: None,
        mask: HitboxMask::player(),
        hit_by_entities: vec![],
    });
    let player_id = game.world.push(player);

    game.step(10, fire_input());

    let idx = game.world.find(player_id).unwrap();
    let p = game.world.get(idx).player.as_ref().unwrap();
    assert_eq!(p.docked_to, Some(station_id));
    let events = game.gui_override_queue.drain();
    assert_eq!(events.len(), 1);
    assert!(matches!(events[0], GuiOverride::StationDocked));
    assert!(game.gui_override_queue.drain().is_empty());
}

#[test]
fn override_queue_keeps_order() {
    let mut q = GuiOverrideQueue::new();
    q.push_back(GuiOverride::StationDocked);
    q.push_back(GuiOverride::StationDocked);
    let drained = q.drain();
    assert_eq!(drained.len(), 2);
    assert!(q.drain().is_empty());
}

#[test]
fn one_shot_button_fires_on_rising_edge_only() {
    let mut b = OneShotButton::new();
    // Held at construction: no fire until released and pressed again.
    assert!(!b.step_and_is_firing(true));
    assert!(!b.step_and_is_firing(false));
    assert!(b.step_and_is_firing(true));
    assert!(!b.step_and_is_firing(true));
}

#[test]
fn mass_precomputes_reciprocal() {
    let m = MassComponent::new(2000);
    assert_eq!(m.mass(), 2000);
    assert_eq!(m.inv_mass(), 500);
}

#[test]
fn counters_reset_each_tick() {
    let mut game = Game::new();
    game.world.push(player_rec());
    game.step(10, fire_input());
    let c = game.collide_counters();
    assert_eq!(c.hurtboxes, 0);
    // One hitbox exists next tick: the bullet from the shot above.
    game.step(10, fire_input());
    assert_eq!(game.collide_counters().hitboxes, 1);
}
