use space_shooter::collision::EnemyCount;
use space_shooter::components::{
    CapabilitySet, Component, EntityId, Movable, Owner, Position, Role, Row, SpriteSize, Velocity,
};
use space_shooter::config::{Config, ConfigError, TimeStep, WinSize};
use space_shooter::enemy::{enemy_spawn_system, spawn_enemy_at};
use space_shooter::player::{
    player_fire_system, player_keyboard_event_system, player_spawn_system,
};
use space_shooter::world::{StoreError, World};

fn standard() -> Config {
    Config::standard(WinSize { w: 598_000_000, h: 576_000_000 })
}

fn lasers(world: &World) -> Vec<Row> {
    world.query(&CapabilitySet::with_role(Role::Laser(Owner::FromPlayer)))
}

#[test]
fn the_standard_values_are_those_of_the_game() {
    let config = standard();
    assert_eq!(config.win_size, WinSize { w: 598_000_000, h: 576_000_000 });
    assert_eq!(config.enemy_max, 2);
    assert_eq!(config.base_speed, 500_000_000);
    assert_eq!(config.time_step, TimeStep { num: 1, den: 60 });
    assert_eq!(config.margin, 200_000_000);
    assert_eq!(config.sprite_scale, 500);
    assert_eq!(
        config.player_size,
        SpriteSize { half_width: 64_000_000, half_height: 64_000_000 }
    );
    assert_eq!(
        config.enemy_size,
        SpriteSize { half_width: 48_000_000, half_height: 48_000_000 }
    );
    assert_eq!(
        config.laser_size,
        SpriteSize { half_width: 4_500_000, half_height: 27_000_000 }
    );
    assert_eq!(config.explosion_len, 16);
    assert_eq!(config.frame_duration, 50_000);
    assert_eq!(config.spawn_interval, 1_000_000);
    assert_eq!(config.spawn_inset, 100_000_000);
    assert_eq!(config.laser_offset_x, 27_000_000);
    assert_eq!(config.laser_offset_y, -2_000_000);
    assert_eq!(config.player_lift, 5_000_000);
    assert_eq!(config.depth, 10);
    assert_eq!(config.validate(), Ok(()));
}

#[test]
fn each_fault_of_a_configuration_is_named() {
    let good = standard();
    assert_eq!(
        Config { time_step: TimeStep { num: 1, den: 0 }, ..good }.validate(),
        Err(ConfigError::ZeroTimeStep)
    );
    assert_eq!(
        Config { frame_duration: 0, ..good }.validate(),
        Err(ConfigError::ZeroFrameDuration)
    );
    assert_eq!(
        Config { spawn_interval: 0, ..good }.validate(),
        Err(ConfigError::ZeroSpawnInterval)
    );
    assert_eq!(
        Config { win_size: WinSize { w: 200_000_000, h: 576_000_000 }, ..good }.validate(),
        Err(ConfigError::ArenaTooSmall)
    );
    assert_eq!(
        Config { win_size: WinSize { w: 598_000_000, h: 199_999_999 }, ..good }.validate(),
        Err(ConfigError::ArenaTooSmall)
    );
    assert_eq!(Config { win_size: WinSize { w: 200_000_002, h: 200_000_002 }, ..good }.validate(), Ok(()));
    assert_eq!(
        Config { time_step: TimeStep { num: 1, den: 0 }, frame_duration: 0, ..good }.validate(),
        Err(ConfigError::ZeroTimeStep)
    );
    assert_eq!(
        Config { frame_duration: 0, spawn_interval: 0, spawn_inset: u32::MAX, ..good }.validate(),
        Err(ConfigError::ZeroFrameDuration)
    );
}

#[test]
fn an_enemy_spawns_where_it_is_put_and_is_counted() {
    let config = standard();
    let mut world = World::new();
    let mut count = EnemyCount(0);
    assert_eq!(
        spawn_enemy_at(&mut world, &mut count, &config, 12_000_000, -34_000_000),
        Ok(Some(EntityId(0)))
    );
    assert_eq!(count, EnemyCount(1));
    assert_eq!(
        world.row(0),
        Row {
            id: EntityId(0),
            position: Some(Position { x: 12_000_000, y: -34_000_000, depth: 10, scale: 500 }),
            velocity: None,
            movable: None,
            size: Some(SpriteSize { half_width: 48_000_000, half_height: 48_000_000 }),
            role: Some(Role::Enemy),
            request: None,
            timer: None,
        }
    );
}

#[test]
fn no_enemy_spawns_at_the_most_allowed_however_often_it_is_tried() {
    let config = standard();
    let mut world = World::new();
    let mut count = EnemyCount(0);
    spawn_enemy_at(&mut world, &mut count, &config, 0, 0).unwrap();
    spawn_enemy_at(&mut world, &mut count, &config, 1, 1).unwrap();
    assert_eq!(count, EnemyCount(2));
    let before: Vec<Row> = (0..2).map(|i| world.row(i)).collect();
    for n in 0..50 {
        assert_eq!(spawn_enemy_at(&mut world, &mut count, &config, n, n), Ok(None));
        assert_eq!(enemy_spawn_system(&mut world, &mut count, &config), Ok(None));
    }
    assert_eq!(count, EnemyCount(2));
    assert_eq!(world.len(), 2);
    let after: Vec<Row> = (0..2).map(|i| world.row(i)).collect();
    assert_eq!(before, after);
    assert_eq!(world.spare_ids(), u64::MAX - 2);
}

#[test]
fn with_no_enemy_allowed_none_spawns() {
    let config = Config { enemy_max: 0, ..standard() };
    let mut world = World::new();
    let mut count = EnemyCount(0);
    assert_eq!(enemy_spawn_system(&mut world, &mut count, &config), Ok(None));
    assert_eq!(world.len(), 0);
}

#[test]
fn enemies_spawn_at_random_inside_the_inset() {
    let config = Config { enemy_max: 400, ..standard() };
    let mut world = World::new();
    let mut count = EnemyCount(0);
    for n in 0..400u64 {
        assert_eq!(enemy_spawn_system(&mut world, &mut count, &config), Ok(Some(EntityId(n))));
    }
    assert_eq!(count, EnemyCount(400));
    assert_eq!(world.len(), 400);
    let mut xs = Vec::new();
    let mut ys = Vec::new();
    for i in 0..400 {
        let row = world.row(i);
        let p = row.position.unwrap();
        assert!(-199_000_000 <= p.x && p.x < 199_000_000);
        assert!(-188_000_000 <= p.y && p.y < 188_000_000);
        assert_eq!(
            row,
            Row {
                id: EntityId(i as u64),
                position: Some(Position { x: p.x, y: p.y, depth: 10, scale: 500 }),
                velocity: None,
                movable: None,
                size: Some(config.enemy_size),
                role: Some(Role::Enemy),
                request: None,
                timer: None,
            }
        );
        xs.push(p.x);
        ys.push(p.y);
    }
    xs.sort();
    xs.dedup();
    ys.sort();
    ys.dedup();
    assert!(xs.len() > 100);
    assert!(ys.len() > 100);
}

#[test]
fn the_smallest_spawning_region_holds_two_places_on_each_axis() {
    let config = Config { win_size: WinSize { w: 200_000_002, h: 200_000_003 }, enemy_max: 64, ..standard() };
    let mut world = World::new();
    let mut count = EnemyCount(0);
    for _ in 0..64 {
        enemy_spawn_system(&mut world, &mut count, &config).unwrap();
    }
    for i in 0..64 {
        let p = world.row(i).position.unwrap();
        assert!(p.x == -1 || p.x == 0);
        assert!(p.y == -1 || p.y == 0);
    }
}

#[test]
fn no_enemy_spawns_without_a_handle() {
    let config = standard();
    let mut world = World::starting_at(u64::MAX);
    let mut count = EnemyCount(0);
    assert_eq!(
        spawn_enemy_at(&mut world, &mut count, &config, 0, 0),
        Err(StoreError::IdsExhausted)
    );
    assert_eq!(
        enemy_spawn_system(&mut world, &mut count, &config),
        Err(StoreError::IdsExhausted)
    );
    assert_eq!(count, EnemyCount(0));
    assert_eq!(world.len(), 0);
}

#[test]
fn the_player_enters_above_the_lower_edge() {
    let config = standard();
    let mut world = World::new();
    assert_eq!(player_spawn_system(&mut world, &config), Ok(Some(EntityId(0))));
    assert_eq!(
        world.row(0),
        Row {
            id: EntityId(0),
            position: Some(Position { x: 0, y: -251_000_000, depth: 10, scale: 500 }),
            velocity: Some(Velocity { x: 0, y: 0 }),
            movable: Some(Movable { auto_despawn: false, carry_x: 0, carry_y: 0 }),
            size: Some(SpriteSize { half_width: 64_000_000, half_height: 64_000_000 }),
            role: Some(Role::Player),
            request: None,
            timer: None,
        }
    );
}

#[test]
fn there_is_never_a_second_player() {
    let config = standard();
    let mut world = World::new();
    player_spawn_system(&mut world, &config).unwrap();
    assert_eq!(player_spawn_system(&mut world, &config), Ok(None));
    assert_eq!(world.len(), 1);
    world.destroy(EntityId(0)).unwrap();
    assert_eq!(player_spawn_system(&mut world, &config), Ok(Some(EntityId(1))));
    assert_eq!(world.len(), 1);
}

#[test]
fn the_player_does_not_enter_without_a_handle() {
    let mut world = World::starting_at(u64::MAX);
    assert_eq!(player_spawn_system(&mut world, &standard()), Err(StoreError::IdsExhausted));
    assert_eq!(world.len(), 0);
}

#[test]
fn the_keys_steer_the_player_and_left_wins() {
    let config = standard();
    let mut world = World::new();
    player_spawn_system(&mut world, &config).unwrap();
    player_keyboard_event_system(&mut world, false, true);
    assert_eq!(world.row(0).velocity, Some(Velocity { x: 1000, y: 0 }));
    player_keyboard_event_system(&mut world, true, false);
    assert_eq!(world.row(0).velocity, Some(Velocity { x: -1000, y: 0 }));
    player_keyboard_event_system(&mut world, true, true);
    assert_eq!(world.row(0).velocity, Some(Velocity { x: -1000, y: 0 }));
    player_keyboard_event_system(&mut world, false, false);
    assert_eq!(world.row(0).velocity, Some(Velocity { x: 0, y: 0 }));
}

#[test]
fn steering_leaves_the_velocity_along_y_and_the_others_alone() {
    let mut world = World::new();
    let other = world.create_entity().unwrap();
    world.attach(other, Component::Velocity(Velocity { x: 5, y: 5 })).unwrap();
    let player = world.create_entity().unwrap();
    world.attach(player, Component::Role(Role::Player)).unwrap();
    world.attach(player, Component::Velocity(Velocity { x: 0, y: 77 })).unwrap();
    player_keyboard_event_system(&mut world, false, true);
    assert_eq!(world.row(1).velocity, Some(Velocity { x: 1000, y: 77 }));
    assert_eq!(world.row(0).velocity, Some(Velocity { x: 5, y: 5 }));
}

#[test]
fn steering_does_nothing_without_exactly_one_player() {
    let mut world = World::new();
    player_keyboard_event_system(&mut world, true, false);
    assert_eq!(world.len(), 0);
    for _ in 0..2 {
        let id = world.create_entity().unwrap();
        world.attach(id, Component::Role(Role::Player)).unwrap();
        world.attach(id, Component::Velocity(Velocity { x: 0, y: 0 })).unwrap();
    }
    player_keyboard_event_system(&mut world, true, false);
    assert_eq!(world.row(0).velocity, Some(Velocity { x: 0, y: 0 }));
    assert_eq!(world.row(1).velocity, Some(Velocity { x: 0, y: 0 }));
}

#[test]
fn a_press_fires_two_lasers_beside_the_player() {
    let config = standard();
    let mut world = World::new();
    player_spawn_system(&mut world, &config).unwrap();
    assert_eq!(
        player_fire_system(&mut world, true, &config),
        Ok(Some((EntityId(1), EntityId(2))))
    );
    let laser = |id: u64, x: i64| Row {
        id: EntityId(id),
        position: Some(Position { x, y: -253_000_000, depth: 10, scale: 500 }),
        velocity: Some(Velocity { x: 0, y: 1000 }),
        movable: Some(Movable { auto_despawn: true, carry_x: 0, carry_y: 0 }),
        size: Some(SpriteSize { half_width: 4_500_000, half_height: 27_000_000 }),
        role: Some(Role::Laser(Owner::FromPlayer)),
        request: None,
        timer: None,
    };
    assert_eq!(world.len(), 3);
    assert_eq!(world.row(1), laser(1, 27_000_000));
    assert_eq!(world.row(2), laser(2, -27_000_000));
}

#[test]
fn without_a_press_nothing_is_fired() {
    let config = standard();
    let mut world = World::new();
    player_spawn_system(&mut world, &config).unwrap();
    assert_eq!(player_fire_system(&mut world, false, &config), Ok(None));
    assert_eq!(world.len(), 1);
}

#[test]
fn nothing_is_fired_without_exactly_one_player() {
    let config = standard();
    let mut world = World::new();
    assert_eq!(player_fire_system(&mut world, true, &config), Ok(None));
    assert_eq!(world.len(), 0);
    for _ in 0..2 {
        let id = world.create_entity().unwrap();
        world.attach(id, Component::Role(Role::Player)).unwrap();
        world
            .attach(id, Component::Position(Position { x: 0, y: 0, depth: 0, scale: 500 }))
            .unwrap();
    }
    assert_eq!(player_fire_system(&mut world, true, &config), Ok(None));
    assert_eq!(world.len(), 2);
    assert!(lasers(&world).is_empty());
}

#[test]
fn a_player_without_a_place_fires_nothing() {
    let config = standard();
    let mut world = World::new();
    let id = world.create_entity().unwrap();
    world.attach(id, Component::Role(Role::Player)).unwrap();
    assert_eq!(player_fire_system(&mut world, true, &config), Ok(None));
    assert_eq!(world.len(), 1);
}

#[test]
fn nothing_is_fired_without_two_handles() {
    let config = standard();
    let mut world = World::starting_at(u64::MAX - 2);
    player_spawn_system(&mut world, &config).unwrap();
    assert_eq!(world.spare_ids(), 1);
    assert_eq!(player_fire_system(&mut world, true, &config), Err(StoreError::IdsExhausted));
    assert_eq!(world.len(), 1);
    assert_eq!(player_fire_system(&mut world, false, &config), Ok(None));
}

#[test]
fn lasers_start_beside_the_player_wherever_it_is() {
    let config = standard();
    let mut world = World::new();
    let id = world.create_entity().unwrap();
    world.attach(id, Component::Role(Role::Player)).unwrap();
    world
        .attach(id, Component::Position(Position { x: i64::MAX - 10, y: i64::MIN + 10, depth: 0, scale: 500 }))
        .unwrap();
    player_fire_system(&mut world, true, &config).unwrap();
    let fired = lasers(&world);
    assert_eq!(fired[0].position.unwrap().x, i64::MAX);
    assert_eq!(fired[1].position.unwrap().x, i64::MAX - 10 - 27_000_000);
    assert_eq!(fired[0].position.unwrap().y, i64::MIN);
    assert_eq!(fired[1].position.unwrap().y, i64::MIN);
}
