use space_shooter::components::{
    CapabilitySet, Component, EntityId, ExplosionRequest, ExplosionTimer, Position, Role, Row,
};
use space_shooter::config::{Config, WinSize};
use space_shooter::explosion::{
    explosion_animation_system, explosion_to_spawn_system, tick_timer,
};
use space_shooter::world::{StoreError, World};

fn standard() -> Config {
    Config::standard(WinSize { w: 598_000, h: 576_000 })
}

fn ask(world: &mut World, x: i64, y: i64) -> EntityId {
    let id = world.create_entity().unwrap();
    world.attach(id, Component::ExplosionRequest(ExplosionRequest { x, y, depth: 10 })).unwrap();
    id
}

fn clock(elapsed: u64, frame_duration: u64, frame_index: u64) -> ExplosionTimer {
    ExplosionTimer { elapsed, frame_duration, frame_index }
}

fn explosion(world: &mut World, timer: ExplosionTimer) -> EntityId {
    let id = world.create_entity().unwrap();
    world.attach(id, Component::Role(Role::Explosion)).unwrap();
    world.attach(id, Component::ExplosionTimer(timer)).unwrap();
    id
}

fn timer_of(world: &World, id: EntityId) -> ExplosionTimer {
    world.row(world.find(id).unwrap()).timer.unwrap()
}

#[test]
fn a_request_becomes_an_explosion_and_is_gone() {
    let mut world = World::new();
    let request = ask(&mut world, 1_000, -2_000);
    assert_eq!(explosion_to_spawn_system(&mut world, &standard()), Ok(1));
    assert!(!world.contains(request));
    assert_eq!(world.len(), 1);
    assert_eq!(
        world.row(0),
        Row {
            id: EntityId(1),
            position: Some(Position { x: 1_000, y: -2_000, depth: 10, scale: 1000 }),
            velocity: None,
            movable: None,
            size: None,
            role: Some(Role::Explosion),
            request: None,
            timer: Some(clock(0, 50_000, 0)),
        }
    );
}

#[test]
fn no_request_is_alive_after_the_stage() {
    let mut world = World::new();
    let bystander = world.create_entity().unwrap();
    world.attach(bystander, Component::Role(Role::Enemy)).unwrap();
    ask(&mut world, 1, 1);
    ask(&mut world, 2, 2);
    let late = world.create_entity().unwrap();
    ask(&mut world, 3, 3);
    assert_eq!(explosion_to_spawn_system(&mut world, &standard()), Ok(3));
    assert!(world.query(&CapabilitySet { request: true, ..CapabilitySet::any() }).is_empty());
    assert_eq!(world.len(), 5);
    assert_eq!(world.row(0).id, bystander);
    assert_eq!(world.row(1).id, late);
    let made = world.query(&CapabilitySet::with_role(Role::Explosion));
    assert_eq!(made.len(), 3);
    for (k, row) in made.iter().enumerate() {
        assert_eq!(row.id, EntityId(5 + k as u64));
        assert_eq!(
            row.position,
            Some(Position { x: k as i64 + 1, y: k as i64 + 1, depth: 10, scale: 1000 })
        );
    }
    assert_eq!(explosion_to_spawn_system(&mut world, &standard()), Ok(0));
    assert_eq!(world.len(), 5);
}

#[test]
fn a_request_on_an_entity_with_more_attached_takes_the_entity_with_it() {
    let mut world = World::new();
    let id = ask(&mut world, 0, 0);
    world.attach(id, Component::Role(Role::Player)).unwrap();
    explosion_to_spawn_system(&mut world, &standard()).unwrap();
    assert!(!world.contains(id));
    assert_eq!(world.len(), 1);
}

#[test]
fn no_explosion_begins_when_the_handles_do_not_suffice() {
    let mut world = World::starting_at(u64::MAX - 2);
    let a = ask(&mut world, 0, 0);
    let b = ask(&mut world, 0, 0);
    assert_eq!(
        explosion_to_spawn_system(&mut world, &standard()),
        Err(StoreError::IdsExhausted)
    );
    assert!(world.contains(a));
    assert!(world.contains(b));
    assert_eq!(world.len(), 2);
}

#[test]
fn time_up_to_the_duration_of_a_frame_is_only_gathered() {
    assert_eq!(tick_timer(clock(0, 50_000, 0), 0), clock(0, 50_000, 0));
    assert_eq!(tick_timer(clock(0, 50_000, 0), 49_999), clock(49_999, 50_000, 0));
    assert_eq!(tick_timer(clock(0, 50_000, 0), 50_000), clock(50_000, 50_000, 0));
    assert_eq!(tick_timer(clock(20_000, 50_000, 3), 30_000), clock(50_000, 50_000, 3));
}

#[test]
fn time_beyond_the_duration_of_a_frame_moves_the_frame_on() {
    assert_eq!(tick_timer(clock(0, 50_000, 0), 50_001), clock(1, 50_000, 1));
    assert_eq!(tick_timer(clock(50_000, 50_000, 0), 1), clock(1, 50_000, 1));
    assert_eq!(tick_timer(clock(49_999, 50_000, 4), 2), clock(1, 50_000, 5));
}

#[test]
fn a_slow_tick_moves_through_several_frames() {
    assert_eq!(tick_timer(clock(0, 50_000, 0), 120_000), clock(20_000, 50_000, 2));
    assert_eq!(tick_timer(clock(0, 50_000, 0), 100_000), clock(50_000, 50_000, 1));
    assert_eq!(tick_timer(clock(0, 50_000, 0), 100_001), clock(1, 50_000, 2));
    assert_eq!(tick_timer(clock(10, 1, 0), 0), clock(1, 1, 9));
    assert_eq!(tick_timer(clock(0, 3, 7), 10), clock(1, 3, 10));
}

#[test]
fn time_in_portions_counts_like_time_at_once() {
    let start = clock(0, 50_000, 0);
    let mut stepwise = start;
    let portions = [16_667u64, 16_667, 16_666, 40_000, 1, 99_999, 0, 50_000];
    let mut fed = 0;
    for dt in portions {
        stepwise = tick_timer(stepwise, dt);
        fed += dt;
        assert_eq!(stepwise, tick_timer(start, fed));
    }
    assert_eq!(fed, 240_000);
    assert_eq!(stepwise, clock(40_000, 50_000, 4));
}

#[test]
fn the_frame_index_stops_at_the_end_of_its_range() {
    assert_eq!(tick_timer(clock(0, 1, u64::MAX - 1), 10), clock(1, 1, u64::MAX));
    assert_eq!(tick_timer(clock(0, 1, 5), u64::MAX), clock(1, 1, u64::MAX));
    assert_eq!(
        tick_timer(clock(u64::MAX, u64::MAX, 0), u64::MAX),
        clock(u64::MAX, u64::MAX, 1)
    );
}

#[test]
fn a_frame_that_lasts_no_time_ends_the_animation_at_once() {
    assert_eq!(tick_timer(clock(0, 0, 0), 0), clock(0, 0, 0));
    assert_eq!(tick_timer(clock(0, 0, 0), 1), clock(0, 0, u64::MAX));
    assert_eq!(tick_timer(clock(5, 0, 2), 0), clock(0, 0, u64::MAX));
}

#[test]
fn an_explosion_goes_through_its_frames_one_by_one_and_leaves() {
    let config = standard();
    let mut world = World::new();
    ask(&mut world, 0, 0);
    explosion_to_spawn_system(&mut world, &config).unwrap();
    let id = EntityId(1);
    explosion_animation_system(&mut world, 50_001, &config);
    assert_eq!(timer_of(&world, id), clock(1, 50_000, 1));
    for frame in 2..16u64 {
        explosion_animation_system(&mut world, 50_000, &config);
        assert_eq!(timer_of(&world, id), clock(1, 50_000, frame));
    }
    explosion_animation_system(&mut world, 50_000, &config);
    assert!(!world.contains(id));
    assert_eq!(world.len(), 0);
}

#[test]
fn an_explosion_stays_while_exactly_its_frames_have_passed() {
    let config = standard();
    let mut world = World::new();
    let id = explosion(&mut world, clock(0, 50_000, 0));
    explosion_animation_system(&mut world, 16 * 50_000, &config);
    assert_eq!(timer_of(&world, id), clock(50_000, 50_000, 15));
    explosion_animation_system(&mut world, 1, &config);
    assert!(!world.contains(id));
}

#[test]
fn a_tick_longer_than_all_frames_ends_a_new_explosion() {
    let config = standard();
    let mut world = World::new();
    let id = explosion(&mut world, clock(0, 50_000, 0));
    let other = explosion(&mut world, clock(0, 50_000, 0));
    world.destroy(other).unwrap();
    explosion_animation_system(&mut world, 16 * 50_000 + 1, &config);
    assert!(!world.contains(id));
}

#[test]
fn ticks_that_do_not_fill_a_frame_leave_the_frame_as_it_is() {
    let config = standard();
    let mut world = World::new();
    let id = explosion(&mut world, clock(0, 50_000, 0));
    explosion_animation_system(&mut world, 16_667, &config);
    assert_eq!(timer_of(&world, id), clock(16_667, 50_000, 0));
    explosion_animation_system(&mut world, 16_667, &config);
    assert_eq!(timer_of(&world, id), clock(33_334, 50_000, 0));
    explosion_animation_system(&mut world, 16_667, &config);
    assert_eq!(timer_of(&world, id), clock(1, 50_000, 1));
}

#[test]
fn only_explosions_with_a_clock_are_animated() {
    let config = standard();
    let mut world = World::new();
    let enemy = world.create_entity().unwrap();
    world.attach(enemy, Component::Role(Role::Enemy)).unwrap();
    world.attach(enemy, Component::ExplosionTimer(clock(0, 1, 99))).unwrap();
    let bare = world.create_entity().unwrap();
    world.attach(bare, Component::Role(Role::Explosion)).unwrap();
    let lone = world.create_entity().unwrap();
    world.attach(lone, Component::ExplosionTimer(clock(0, 1, 99))).unwrap();
    let before: Vec<Row> = (0..3).map(|i| world.row(i)).collect();
    explosion_animation_system(&mut world, 1_000_000, &config);
    let after: Vec<Row> = (0..3).map(|i| world.row(i)).collect();
    assert_eq!(before, after);
}

#[test]
fn the_number_of_frames_comes_from_the_configuration() {
    let mut config = standard();
    config.explosion_len = 2;
    let mut world = World::new();
    let id = explosion(&mut world, clock(0, 10, 0));
    explosion_animation_system(&mut world, 11, &config);
    assert_eq!(timer_of(&world, id), clock(1, 10, 1));
    explosion_animation_system(&mut world, 10, &config);
    assert!(!world.contains(id));
    config.explosion_len = 0;
    let at_once = explosion(&mut world, clock(0, 10, 0));
    explosion_animation_system(&mut world, 0, &config);
    assert!(!world.contains(at_once));
}
