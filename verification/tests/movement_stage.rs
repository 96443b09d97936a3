use space_shooter::components::{
    Component, EntityId, Movable, Owner, Position, Role, Row, Velocity,
};
use space_shooter::config::{Config, TimeStep, WinSize};
use space_shooter::fixed::{saturate, scaled};
use space_shooter::movement::{advance, movable_system, out_of_bounds};
use space_shooter::world::World;

fn standard() -> Config {
    Config::standard(WinSize { w: 598_000_000, h: 576_000_000 })
}

fn at(x: i64, y: i64) -> Position {
    Position { x, y, depth: 10, scale: 500 }
}

fn mover(world: &mut World, position: Position, velocity: Velocity, auto_despawn: bool) -> EntityId {
    let id = world.create_entity().unwrap();
    world.attach(id, Component::Position(position)).unwrap();
    world.attach(id, Component::Velocity(velocity)).unwrap();
    world.attach(id, Component::Movable(Movable::new(auto_despawn))).unwrap();
    id
}

#[test]
fn one_step_at_full_speed_covers_a_sixtieth_of_the_base_speed() {
    let mut world = World::new();
    let id = mover(&mut world, at(0, 0), Velocity { x: 1000, y: 0 }, false);
    movable_system(&mut world, &standard());
    let row = world.row(world.find(id).unwrap());
    assert_eq!(row.position, Some(at(8_333_333, 0)));
    let pixels = row.position.unwrap().x as f64 / 1_000_000.0;
    assert!((pixels - 500.0 / 60.0).abs() < 0.000_001);
    assert!((pixels - 8.333333).abs() < 0.0001);
}

#[test]
fn movement_is_the_same_every_time() {
    let mut first = World::new();
    let mut second = World::new();
    for world in [&mut first, &mut second] {
        mover(world, at(10, -20), Velocity { x: -1000, y: 1000 }, true);
        mover(world, at(-5, 7), Velocity { x: 500, y: 0 }, false);
        for _ in 0..10 {
            movable_system(world, &standard());
        }
    }
    assert_eq!(first.row(0), second.row(0));
    assert_eq!(first.row(1), second.row(1));
    assert_eq!(first.row(0).position, Some(at(10 - 83_333_334, -20 + 83_333_333)));
    assert_eq!(first.row(1).position, Some(at(-5 + 41_666_666, 7)));
}

#[test]
fn a_step_goes_whole_units_and_carries_the_rest() {
    let config = standard();
    let start = Movable::new(false);
    let forth = advance(at(0, 0), Velocity { x: 1000, y: 1 }, start, &config);
    assert_eq!(forth.0, at(8_333_333, 8333));
    assert_eq!(forth.1, Movable { auto_despawn: false, carry_x: 20_000, carry_y: 20_000 });
    let back = advance(at(0, 0), Velocity { x: -1000, y: -1 }, start, &config);
    assert_eq!(back.0, at(-8_333_334, -8334));
    assert_eq!(back.1, Movable { auto_despawn: false, carry_x: 40_000, carry_y: 40_000 });
    let there_and_back = advance(forth.0, Velocity { x: -1000, y: -1 }, forth.1, &config);
    assert_eq!(there_and_back, (at(0, 0), start));
    let slow = advance(at(0, 0), Velocity { x: 0, y: 0 }, forth.1, &config);
    assert_eq!(slow, (at(0, 0), forth.1));
}

#[test]
fn sixty_steps_at_full_speed_are_five_hundred_pixels_to_the_unit() {
    let config = standard();
    let mut world = World::new();
    let right = mover(&mut world, at(0, 0), Velocity { x: 1000, y: 0 }, false);
    let left = mover(&mut world, at(0, 0), Velocity { x: -1000, y: 0 }, false);
    let mut last = 0;
    for n in 1..=60i64 {
        movable_system(&mut world, &config);
        let x = world.row(world.find(right).unwrap()).position.unwrap().x;
        assert_eq!(x, n * 500_000_000 / 60);
        assert!(x - last == 8_333_333 || x - last == 8_333_334);
        let pixels = x as f64 / 1_000_000.0;
        assert!((pixels - n as f64 * 500.0 / 60.0).abs() < 0.000_001);
        last = x;
    }
    let row = world.row(world.find(right).unwrap());
    assert_eq!(row.position, Some(at(500_000_000, 0)));
    assert_eq!(row.movable, Some(Movable::new(false)));
    let row = world.row(world.find(left).unwrap());
    assert_eq!(row.position, Some(at(-500_000_000, 0)));
    assert_eq!(row.movable, Some(Movable::new(false)));
}

#[test]
fn the_time_step_and_the_base_speed_both_count() {
    let mut config = standard();
    config.time_step = TimeStep { num: 1, den: 50 };
    config.base_speed = 100_000;
    assert_eq!(
        advance(at(0, 0), Velocity { x: 1000, y: -500 }, Movable::new(true), &config),
        (at(2000, -1000), Movable::new(true))
    );
    config.time_step = TimeStep { num: 3, den: 50 };
    assert_eq!(
        advance(at(1, 1), Velocity { x: 1000, y: -500 }, Movable::new(true), &config),
        (at(6001, -2999), Movable::new(true))
    );
}

#[test]
fn a_coordinate_stops_at_the_end_of_its_range() {
    let config = standard();
    let far = advance(
        Position { x: i64::MAX - 5, y: i64::MIN + 5, depth: 0, scale: 1000 },
        Velocity { x: 1000, y: -1000 },
        Movable::new(false),
        &config,
    )
    .0;
    assert_eq!(far.x, i64::MAX);
    assert_eq!(far.y, i64::MIN);
    assert_eq!(saturate(i64::MAX as i128 + 1), i64::MAX);
    assert_eq!(saturate(i64::MIN as i128 - 1), i64::MIN);
    assert_eq!(saturate(-42), -42);
    assert_eq!(scaled(u32::MAX, u32::MAX), 18_446_744_065_119_617_025);
    assert_eq!(scaled(48_000, 500), 24_000_000);
}

#[test]
fn an_entity_just_beyond_the_margin_is_destroyed_and_one_just_inside_is_not() {
    let config = standard();
    let edge = 299_000_000 + 200_000_000;
    let mut world = World::new();
    let beyond = mover(&mut world, at(edge + 1, 0), Velocity { x: 0, y: 0 }, true);
    let inside = mover(&mut world, at(edge - 1, 0), Velocity { x: 0, y: 0 }, true);
    let on_it = mover(&mut world, at(edge, 0), Velocity { x: 0, y: 0 }, true);
    movable_system(&mut world, &config);
    assert!(!world.contains(beyond));
    assert!(world.contains(inside));
    assert!(world.contains(on_it));
    assert_eq!(world.len(), 2);
}

#[test]
fn the_bounds_hold_on_all_four_sides() {
    let config = standard();
    let edge_x = 299_000_000 + 200_000_000;
    let edge_y = 288_000_000 + 200_000_000;
    assert!(out_of_bounds(at(edge_x + 1, 0), &config));
    assert!(out_of_bounds(at(-edge_x - 1, 0), &config));
    assert!(out_of_bounds(at(0, edge_y + 1), &config));
    assert!(out_of_bounds(at(0, -edge_y - 1), &config));
    assert!(!out_of_bounds(at(edge_x, edge_y), &config));
    assert!(!out_of_bounds(at(-edge_x, -edge_y), &config));
    assert!(!out_of_bounds(at(0, 0), &config));
}

#[test]
fn the_bounds_are_tested_where_the_step_has_brought_the_entity() {
    let config = standard();
    let edge_y = 288_000_000 + 200_000_000;
    let mut world = World::new();
    let leaving = mover(&mut world, at(0, edge_y), Velocity { x: 0, y: 1000 }, true);
    let coming_back = mover(&mut world, at(0, edge_y + 1), Velocity { x: 0, y: -1000 }, true);
    movable_system(&mut world, &config);
    assert!(!world.contains(leaving));
    assert!(world.contains(coming_back));
}

#[test]
fn an_entity_that_is_not_marked_for_removal_stays_beyond_the_bounds() {
    let config = standard();
    let mut world = World::new();
    let player = mover(&mut world, at(10_000_000_000, 0), Velocity { x: 1000, y: 0 }, false);
    movable_system(&mut world, &config);
    assert_eq!(world.row(world.find(player).unwrap()).position, Some(at(10_008_333_333, 0)));
}

#[test]
fn only_entities_with_a_place_a_velocity_and_the_mark_move() {
    let config = standard();
    let mut world = World::new();
    let no_mark = world.create_entity().unwrap();
    world.attach(no_mark, Component::Position(at(1_000_000_000, 0))).unwrap();
    world.attach(no_mark, Component::Velocity(Velocity { x: 1000, y: 0 })).unwrap();
    let no_velocity = world.create_entity().unwrap();
    world.attach(no_velocity, Component::Position(at(1_000_000_000, 0))).unwrap();
    world.attach(no_velocity, Component::Movable(Movable::new(true))).unwrap();
    let no_place = world.create_entity().unwrap();
    world.attach(no_place, Component::Velocity(Velocity { x: 1000, y: 0 })).unwrap();
    world.attach(no_place, Component::Movable(Movable::new(true))).unwrap();
    let before: Vec<Row> = (0..3).map(|i| world.row(i)).collect();
    movable_system(&mut world, &config);
    let after: Vec<Row> = (0..3).map(|i| world.row(i)).collect();
    assert_eq!(before, after);
}

#[test]
fn movement_keeps_everything_but_the_place() {
    let config = standard();
    let mut world = World::new();
    let id = mover(&mut world, at(0, 0), Velocity { x: 0, y: 1000 }, true);
    world.attach(id, Component::Role(Role::Laser(Owner::FromPlayer))).unwrap();
    let before = world.row(0);
    movable_system(&mut world, &config);
    let after = world.row(0);
    assert_eq!(after.position, Some(at(0, 8_333_333)));
    assert_eq!(
        after.movable,
        Some(Movable { auto_despawn: true, carry_x: 0, carry_y: 20_000 })
    );
    assert_eq!(Row { position: before.position, movable: before.movable, ..after }, before);
}

#[test]
fn the_order_of_the_entities_survives_a_removal() {
    let config = standard();
    let mut world = World::new();
    let a = mover(&mut world, at(0, 0), Velocity { x: 0, y: 0 }, true);
    let b = mover(&mut world, at(0, 9_000_000_000), Velocity { x: 0, y: 0 }, true);
    let c = mover(&mut world, at(5, 5), Velocity { x: 0, y: 0 }, true);
    movable_system(&mut world, &config);
    assert_eq!(world.len(), 2);
    assert_eq!(world.row(0).id, a);
    assert_eq!(world.row(1).id, c);
    assert!(!world.contains(b));
    assert_eq!(world.create_entity(), Ok(EntityId(3)));
}
