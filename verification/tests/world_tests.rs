use ecs_core::control::Key;
use ecs_core::dispatch::DispatcherBuilder;
use ecs_core::graphics::{render_items, Sprite};
use ecs_core::movement::{AngularMomentum, Position, Rotation, Vec2, Velocity};
use ecs_core::world::{ComponentValue, World};
use ecs_core::{control, graphics, movement};

fn game_world() -> (World, ecs_core::dispatch::Dispatcher) {
    let mut world = World::new();
    let mut b = DispatcherBuilder::new();
    b = ecs_core::init_world(&mut world, b);
    b = control::init_world(&mut world, b);
    b = graphics::init_world(&mut world, b);
    b = movement::init_world(&mut world, b);
    let dispatcher = b.build().ok().unwrap();

    world
        .create_entity()
        .with(ComponentValue::Position(Position(Vec2 { x: 320_000, y: 240_000 })))
        .with(ComponentValue::Velocity(Velocity(Vec2 { x: 0, y: 0 })))
        .with(ComponentValue::Controllable(ecs_core::control::Controllable))
        .with(ComponentValue::Rotation(Rotation(300)))
        .with(ComponentValue::AngularMomentum(AngularMomentum(-200)))
        .with(ComponentValue::Sprite(Sprite(0)))
        .build(&mut world);

    (world, dispatcher)
}

#[test]
fn one_tick_moves_and_rotates() {
    let (mut world, dispatcher) = game_world();
    // press D: 300 units/s to the right, dt is 50 ms per tick
    world.resources.set_key(Key::D, true);
    dispatcher.dispatch(&mut world);
    let items = render_items(&world);
    assert_eq!(items.len(), 1);
    // control set the velocity and move integrated it within one tick,
    // or not, depending on the conflict-derived order; after two ticks
    // the position must have advanced by at least one step
    dispatcher.dispatch(&mut world);
    let items = render_items(&world);
    assert!(items[0].position.0.x > 320_000);
    assert_eq!(items[0].position.0.y, 240_000);
    // rotation integrates -0.2 rad/s over the ticks
    assert!(items[0].rotation.0 < 300);
    assert_eq!(items[0].sprite, Sprite(0));
}

#[test]
fn render_defaults_rotation_to_zero() {
    let mut world = World::new();
    let mut b = DispatcherBuilder::new();
    b = ecs_core::init_world(&mut world, b);
    b = control::init_world(&mut world, b);
    b = graphics::init_world(&mut world, b);
    b = movement::init_world(&mut world, b);
    let _ = b;
    world
        .create_entity()
        .with(ComponentValue::Position(Position(Vec2 { x: 1, y: 2 })))
        .with(ComponentValue::Sprite(Sprite(9)))
        .build(&mut world);
    // a second entity without a sprite never renders
    world
        .create_entity()
        .with(ComponentValue::Position(Position(Vec2 { x: 3, y: 4 })))
        .build(&mut world);
    let items = render_items(&world);
    assert_eq!(items.len(), 1);
    assert_eq!(items[0].rotation, Rotation(0));
    assert_eq!(items[0].position, Position(Vec2 { x: 1, y: 2 }));
}

#[test]
fn builder_later_value_overwrites_earlier() {
    let mut world = World::new();
    let b = DispatcherBuilder::new();
    let _ = movement::init_world(&mut world, b);
    let e = world
        .create_entity()
        .with(ComponentValue::Rotation(Rotation(1)))
        .with(ComponentValue::Rotation(Rotation(2)))
        .build(&mut world);
    match &world.rotations {
        Some(s) => assert_eq!(s.get(e), Some(&Rotation(2))),
        None => panic!("rotation storage must be registered"),
    }
}

#[test]
fn registration_is_idempotent() {
    let mut world = World::new();
    let b = DispatcherBuilder::new();
    let b = movement::init_world(&mut world, b);
    let e = world
        .create_entity()
        .with(ComponentValue::Rotation(Rotation(5)))
        .build(&mut world);
    // a second registration keeps the stored values
    let _ = movement::init_world(&mut world, b);
    match &world.rotations {
        Some(s) => assert_eq!(s.get(e), Some(&Rotation(5))),
        None => panic!("rotation storage must be registered"),
    }
}

#[test]
fn delta_resource_seeded_to_fifty_milliseconds() {
    let mut world = World::new();
    let b = DispatcherBuilder::new();
    let _ = ecs_core::init_world(&mut world, b);
    assert_eq!(world.resources.read_delta(), ecs_core::DeltaTime(50));
}
