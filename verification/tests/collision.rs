use twin_stick_shooter_core::collision::Shape;
use twin_stick_shooter_core::dbvt::Dbvt;
use twin_stick_shooter_core::fix::Vec2;
use twin_stick_shooter_core::hitbox::{hitbox, HitboxComponent, HitboxEffect, HitboxMask, HurtboxComponent};
use twin_stick_shooter_core::position::PositionComponent;
use twin_stick_shooter_core::resource::CollideCounters;
use twin_stick_shooter_core::store::{EntityRec, World};

fn circle(radius: i64) -> Shape {
    Shape::Circle { radius }
}

#[test]
fn non_overlapping() {
    let shape_a = circle(2000);
    let pos_a = Vec2 { x: -2100, y: 0 };
    let shape_b = circle(3000);
    let pos_b = Vec2 { x: 3100, y: 0 };
    assert_eq!(twin_stick_shooter_core::collision::test(&shape_a, pos_a, &shape_b, pos_b), false);
}

#[test]
fn overlapping() {
    let shape_a = circle(2000);
    let pos_a = Vec2 { x: -1900, y: 0 };
    let shape_b = circle(3000);
    let pos_b = Vec2 { x: 2900, y: 0 };
    assert_eq!(twin_stick_shooter_core::collision::test(&shape_a, pos_a, &shape_b, pos_b), true);
}

#[test]
fn touching_circles_intersect() {
    // Centre distance exactly equal to the radius sum counts as a hit.
    let shape_a = circle(2000);
    let shape_b = circle(3000);
    assert_eq!(
        twin_stick_shooter_core::collision::test(&shape_a, Vec2 { x: -2000, y: 0 }, &shape_b, Vec2 { x: 3000, y: 0 }),
        true
    );
    assert_eq!(
        twin_stick_shooter_core::collision::test(&shape_a, Vec2 { x: -2000, y: 0 }, &shape_b, Vec2 { x: 3001, y: 0 }),
        false
    );
}

#[test]
fn system() {
    let mut world = World::new();
    let mut rec = EntityRec::new();
    rec.pos = Some(PositionComponent(Vec2 { x: -2000, y: 0 }));
    rec.hitbox = Some(HitboxComponent {
        shape: circle(2000),
        dbvt_index: None,
        mask: HitboxMask::target(),
        effect: HitboxEffect::Inert,
        hit_entities: vec![],
    });
    let hitbox_circle = world.push(rec);

    let mut rec = EntityRec::new();
    rec.pos = Some(PositionComponent(Vec2 { x: 2900, y: 0 }));
    rec.hurtbox = Some(HurtboxComponent {
        shape: circle(3000),
        dbvt_index: None,
        mask: HitboxMask::target(),
        hit_by_entities: vec![],
    });
    let hurtbox_circle_should_hit = world.push(rec);

    let mut rec = EntityRec::new();
    rec.pos = Some(PositionComponent(Vec2 { x: 3100, y: 0 }));
    rec.hurtbox = Some(HurtboxComponent {
        shape: circle(3000),
        dbvt_index: None,
        mask: HitboxMask::target(),
        hit_by_entities: vec![],
    });
    let hurtbox_circle_should_miss = world.push(rec);

    let mut dbvt = Dbvt::new();
    let mut counters = CollideCounters::default();
    hitbox(&mut world, &mut dbvt, 7, &mut counters);

    let hit_idx = world.find(hitbox_circle).unwrap();
    assert_eq!(
        world.get(hit_idx).hitbox.as_ref().unwrap().hit_entities,
        vec![hurtbox_circle_should_hit]
    );
    let hurt_idx = world.find(hurtbox_circle_should_hit).unwrap();
    assert_eq!(
        world.get(hurt_idx).hurtbox.as_ref().unwrap().hit_by_entities,
        vec![hitbox_circle]
    );
    let miss_idx = world.find(hurtbox_circle_should_miss).unwrap();
    assert_eq!(
        world.get(miss_idx).hurtbox.as_ref().unwrap().hit_by_entities,
        vec![]
    );
}

#[test]
fn disjoint_masks_never_register() {
    // Fully overlapping shapes, but the masks share no bit.
    let mut world = World::new();
    let mut rec = EntityRec::new();
    rec.pos = Some(PositionComponent(Vec2 { x: 0, y: 0 }));
    rec.hitbox = Some(HitboxComponent {
        shape: circle(2000),
        dbvt_index: None,
        mask: HitboxMask::target(),
        effect: HitboxEffect::Inert,
        hit_entities: vec![],
    });
    let attacker = world.push(rec);

    let mut rec = EntityRec::new();
    rec.pos = Some(PositionComponent(Vec2 { x: 100, y: 0 }));
    rec.hurtbox = Some(HurtboxComponent {
        shape: circle(2000),
        dbvt_index: None,
        mask: HitboxMask::player(),
        hit_by_entities: vec![],
    });
    let receiver = world.push(rec);

    let mut dbvt = Dbvt::new();
    let mut counters = CollideCounters::default();
    hitbox(&mut world, &mut dbvt, 0, &mut counters);

    let a = world.find(attacker).unwrap();
    assert!(world.get(a).hitbox.as_ref().unwrap().hit_entities.is_empty());
    let r = world.find(receiver).unwrap();
    assert!(world.get(r).hurtbox.as_ref().unwrap().hit_by_entities.is_empty());
}

#[test]
fn mask_overlaps() {
    assert!(HitboxMask(3).overlaps(HitboxMask(1)));
    assert!(!HitboxMask::target().overlaps(HitboxMask::player()));
}
