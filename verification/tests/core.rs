use ecs_core::control::{Control, Controllable, Key, Keyboard};
use ecs_core::dispatch::{BuildError, DispatcherBuilder, SystemKind};
use ecs_core::entity::{Entity, EntityRegistry};
use ecs_core::movement::{integrate, AngularMomentum, Move, Position, Rotate, Rotation, Vec2, Velocity};
use ecs_core::storage::{join2, Storage};

#[test]
fn entities_distinct_and_in_creation_order() {
    let mut reg = EntityRegistry::new();
    let a = reg.create();
    let b = reg.create();
    let c = reg.create();
    assert_ne!(a, b);
    assert_ne!(a, c);
    assert_ne!(b, c);
    assert_eq!(reg.all(), vec![a, b, c]);
    assert_eq!(reg.len(), 3);
}

#[test]
fn storage_insert_get_overwrite_dense() {
    let mut reg = EntityRegistry::new();
    let e = reg.create();
    let mut s: Storage<Rotation> = Storage::new_dense();
    assert!(!s.contains(e));
    assert!(s.get(e).is_none());
    s.insert(e, Rotation(7));
    assert_eq!(s.get(e), Some(&Rotation(7)));
    s.insert(e, Rotation(9));
    assert_eq!(s.get(e), Some(&Rotation(9)));
    assert_eq!(s.entities(), vec![e]);
}

#[test]
fn storage_insert_get_overwrite_sparse() {
    let mut reg = EntityRegistry::new();
    let e = reg.create();
    let f = reg.create();
    let mut s: Storage<Rotation> = Storage::new_sparse();
    s.insert(f, Rotation(1));
    s.insert(e, Rotation(7));
    assert_eq!(s.get(e), Some(&Rotation(7)));
    s.insert(e, Rotation(9));
    assert_eq!(s.get(e), Some(&Rotation(9)));
    assert_eq!(s.get(f), Some(&Rotation(1)));
    assert_eq!(s.entities().len(), 2);
}

#[test]
fn join_is_the_intersection() {
    let mut reg = EntityRegistry::new();
    let a = reg.create();
    let b = reg.create();
    let c = reg.create();
    let mut s1: Storage<Rotation> = Storage::new_dense();
    let mut s2: Storage<Velocity> = Storage::new_sparse();
    s1.insert(a, Rotation(1));
    s1.insert(b, Rotation(2));
    s2.insert(b, Velocity(Vec2 { x: 0, y: 0 }));
    s2.insert(c, Velocity(Vec2 { x: 0, y: 0 }));
    assert_eq!(join2(&s1, &s2), vec![b]);
}

#[test]
fn join_empty_intersection_is_empty() {
    let mut reg = EntityRegistry::new();
    let a = reg.create();
    let b = reg.create();
    let mut s1: Storage<Rotation> = Storage::new_dense();
    let mut s2: Storage<Velocity> = Storage::new_dense();
    s1.insert(a, Rotation(1));
    s2.insert(b, Velocity(Vec2 { x: 0, y: 0 }));
    let joined = join2(&s1, &s2);
    assert!(joined.is_empty());
}

#[test]
fn integrate_scales_by_milliseconds() {
    // 100 units/s over 50 ms adds 5 units
    assert_eq!(integrate(0, 100_000, 50), 5_000);
    assert_eq!(integrate(2_000, -100_000, 50), -3_000);
    assert_eq!(integrate(1, 0, 50), 1);
    assert_eq!(integrate(i64::MAX, i64::MAX, 1_000_000), i64::MAX);
}

#[test]
fn move_tick_integrates_position() {
    // dt = 0.05 s, velocity (100, 0), position (0, 0) -> (5.0, 0.0)
    let mut reg = EntityRegistry::new();
    let e = reg.create();
    let mut vel: Storage<Velocity> = Storage::new_dense();
    let mut pos: Storage<Position> = Storage::new_dense();
    vel.insert(e, Velocity(Vec2 { x: 100_000, y: 0 }));
    pos.insert(e, Position(Vec2 { x: 0, y: 0 }));
    Move.run(&ecs_core::DeltaTime(50), &vel, &mut pos);
    assert_eq!(pos.get(e), Some(&Position(Vec2 { x: 5_000, y: 0 })));
}

#[test]
fn rotate_tick_integrates_rotation() {
    let mut reg = EntityRegistry::new();
    let e = reg.create();
    let mut amo: Storage<AngularMomentum> = Storage::new_dense();
    let mut rot: Storage<Rotation> = Storage::new_dense();
    amo.insert(e, AngularMomentum(-200));
    rot.insert(e, Rotation(300));
    Rotate.run(&ecs_core::DeltaTime(50), &amo, &mut rot);
    assert_eq!(rot.get(e), Some(&Rotation(290)));
}

#[test]
fn control_tick_w_then_d() {
    let mut reg = EntityRegistry::new();
    let e = reg.create();
    let mut ctl: Storage<Controllable> = Storage::new_sparse();
    let mut vel: Storage<Velocity> = Storage::new_dense();
    ctl.insert(e, Controllable);
    vel.insert(e, Velocity(Vec2 { x: 0, y: 0 }));
    let mut kbd = Keyboard::new();
    kbd.set_pressed(Key::W, true);
    Control.run(&kbd, &ctl, &mut vel);
    assert_eq!(vel.get(e), Some(&Velocity(Vec2 { x: 0, y: -300_000 })));
    kbd.set_pressed(Key::W, false);
    kbd.set_pressed(Key::D, true);
    Control.run(&kbd, &ctl, &mut vel);
    assert_eq!(vel.get(e), Some(&Velocity(Vec2 { x: 300_000, y: 0 })));
}

#[test]
fn control_skips_uncontrolled_entities() {
    let mut reg = EntityRegistry::new();
    let e = reg.create();
    let ctl: Storage<Controllable> = Storage::new_sparse();
    let mut vel: Storage<Velocity> = Storage::new_dense();
    vel.insert(e, Velocity(Vec2 { x: 7, y: 8 }));
    let mut kbd = Keyboard::new();
    kbd.set_pressed(Key::A, true);
    Control.run(&kbd, &ctl, &mut vel);
    assert_eq!(vel.get(e), Some(&Velocity(Vec2 { x: 7, y: 8 })));
}

#[test]
fn keyboard_tracks_keys() {
    let mut k = Keyboard::new();
    assert!(!k.is_pressed(Key::W));
    k.set_pressed(Key::S, true);
    assert!(k.is_pressed(Key::S));
    assert!(!k.is_pressed(Key::A));
    k.set_pressed(Key::S, false);
    assert!(!k.is_pressed(Key::S));
}

#[test]
fn build_fails_on_cycle() {
    let b = DispatcherBuilder::new()
        .add(SystemKind::Move, 10, vec![20])
        .add(SystemKind::Rotate, 20, vec![10]);
    assert_eq!(b.build().err(), Some(BuildError::CyclicDependency));
}

#[test]
fn build_fails_on_self_cycle() {
    let b = DispatcherBuilder::new().add(SystemKind::Move, 10, vec![10]);
    assert_eq!(b.build().err(), Some(BuildError::CyclicDependency));
}

#[test]
fn build_fails_on_unknown_predecessor() {
    let b = DispatcherBuilder::new().add(SystemKind::Move, 10, vec![99]);
    assert_eq!(b.build().err(), Some(BuildError::UnknownDependency(99)));
}

#[test]
fn disjoint_systems_share_a_group() {
    // Move and Rotate have disjoint access sets and no predecessor
    // relation: the plan may put them into one parallel group, and does
    let b = DispatcherBuilder::new()
        .add(SystemKind::Move, 1, Vec::new())
        .add(SystemKind::Rotate, 2, Vec::new());
    let d = b.build().ok().unwrap();
    let plan = d.plan();
    assert_eq!(plan.len(), 2);
    assert_eq!(plan[0].group, plan[1].group);
}

#[test]
fn conflicting_systems_never_share_a_group() {
    // Control writes the velocity storage that Move reads: never one
    // group, in either registration order
    let b = DispatcherBuilder::new()
        .add(SystemKind::Control, 1, Vec::new())
        .add(SystemKind::Move, 2, Vec::new());
    let d = b.build().ok().unwrap();
    assert_ne!(d.plan()[0].group, d.plan()[1].group);

    let b = DispatcherBuilder::new()
        .add(SystemKind::Move, 2, Vec::new())
        .add(SystemKind::Control, 1, Vec::new());
    let d = b.build().ok().unwrap();
    assert_ne!(d.plan()[0].group, d.plan()[1].group);
}

#[test]
fn predecessors_order_the_plan() {
    let b = DispatcherBuilder::new()
        .add(SystemKind::Rotate, 2, vec![1])
        .add(SystemKind::Move, 1, Vec::new());
    let d = b.build().ok().unwrap();
    let plan = d.plan();
    // Move (index 1) must land in a strictly earlier group than Rotate
    let gmove = plan.iter().find(|e| e.sys == 1).unwrap().group;
    let grot = plan.iter().find(|e| e.sys == 0).unwrap().group;
    assert!(gmove < grot);
}

#[test]
fn entity_index_is_stable() {
    let mut reg = EntityRegistry::new();
    let a = reg.create();
    assert_eq!(a, Entity { id: 0 });
}
