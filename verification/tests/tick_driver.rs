use space_shooter::collision::Hit;
use space_shooter::components::{
    CapabilitySet, EntityId, ExplosionRequest, ExplosionTimer, Owner, Position, Role, Row, Velocity,
    Visual,
};
use space_shooter::config::{Config, ConfigError, TimeStep, WinSize};
use space_shooter::game::{Controls, Game};
use space_shooter::world::{StoreError, World};

const IDLE: Controls = Controls { left: false, right: false, fire: false };
const FIRE: Controls = Controls { left: false, right: false, fire: true };
const FRAME: u64 = 16_667;

fn standard() -> Config {
    Config::standard(WinSize { w: 598_000_000, h: 576_000_000 })
}

fn with_role(world: &World, role: Role) -> Vec<Row> {
    world.query(&CapabilitySet::with_role(role))
}

fn lasers(game: &Game) -> Vec<Row> {
    with_role(game.world(), Role::Laser(Owner::FromPlayer))
}

fn rows(world: &World) -> Vec<Row> {
    (0..world.len()).map(|i| world.row(i)).collect()
}

#[test]
fn a_session_starts_empty() {
    let game = Game::new(standard()).unwrap();
    assert_eq!(game.world().len(), 0);
    assert_eq!(game.enemy_count(), 0);
    assert_eq!(*game.config(), standard());
    assert_eq!(game.world().spare_ids(), u64::MAX);
}

#[test]
fn a_session_refuses_a_configuration_that_the_rules_cannot_run_on() {
    let good = standard();
    assert_eq!(
        Game::new(Config { time_step: TimeStep { num: 1, den: 0 }, ..good }).unwrap_err(),
        ConfigError::ZeroTimeStep
    );
    assert_eq!(
        Game::new(Config { frame_duration: 0, ..good }).unwrap_err(),
        ConfigError::ZeroFrameDuration
    );
    assert_eq!(
        Game::new(Config { spawn_interval: 0, ..good }).unwrap_err(),
        ConfigError::ZeroSpawnInterval
    );
    assert_eq!(
        Game::new(Config { spawn_inset: 299_000_000, ..good }).unwrap_err(),
        ConfigError::ArenaTooSmall
    );
    assert_eq!(
        Game::starting_at(Config { spawn_interval: 0, ..good }, 5).unwrap_err(),
        ConfigError::ZeroSpawnInterval
    );
}

#[test]
fn holding_fire_over_many_ticks_fires_once() {
    let mut game = Game::new(standard()).unwrap();
    game.spawn_player().unwrap();
    let first = game.advance(FRAME, FIRE).unwrap();
    assert_eq!(first.fired, Some((EntityId(1), EntityId(2))));
    assert_eq!(lasers(&game).len(), 2);
    for _ in 0..10 {
        let held = game.advance(FRAME, FIRE).unwrap();
        assert_eq!(held.fired, None);
    }
    assert_eq!(lasers(&game).len(), 2);
    assert_eq!(game.world().len(), 3);
    assert_eq!(game.world().spare_ids(), u64::MAX - 3);
}

#[test]
fn letting_go_and_pressing_again_fires_again() {
    let mut game = Game::new(standard()).unwrap();
    game.spawn_player().unwrap();
    assert!(game.advance(FRAME, FIRE).unwrap().fired.is_some());
    assert!(game.advance(FRAME, FIRE).unwrap().fired.is_none());
    assert!(game.advance(FRAME, IDLE).unwrap().fired.is_none());
    assert_eq!(game.advance(FRAME, FIRE).unwrap().fired, Some((EntityId(3), EntityId(4))));
    assert_eq!(lasers(&game).len(), 4);
}

#[test]
fn fire_held_from_the_first_tick_on_with_ticks_fires_once() {
    let mut game = Game::new(Config { enemy_max: 0, ..standard() }).unwrap();
    game.spawn_player().unwrap();
    let mut fired = 0;
    for _ in 0..5 {
        if game.tick(FRAME, FIRE).unwrap().step.fired.is_some() {
            fired += 1;
        }
    }
    assert_eq!(fired, 1);
    assert_eq!(lasers(&game).len(), 2);
}

#[test]
fn nothing_is_fired_before_the_player_has_come_in() {
    let mut game = Game::new(standard()).unwrap();
    assert_eq!(game.advance(FRAME, FIRE).unwrap().fired, None);
    game.spawn_player().unwrap();
    assert_eq!(game.advance(FRAME, FIRE).unwrap().fired, None);
    assert_eq!(game.advance(FRAME, IDLE).unwrap().fired, None);
    assert!(game.advance(FRAME, FIRE).unwrap().fired.is_some());
}

#[test]
fn the_player_moves_with_the_keys() {
    let mut game = Game::new(standard()).unwrap();
    game.spawn_player().unwrap();
    game.advance(FRAME, Controls { left: false, right: true, fire: false }).unwrap();
    assert_eq!(
        game.world().row(0).position,
        Some(Position { x: 8_333_333, y: -251_000_000, depth: 10, scale: 500 })
    );
    game.advance(FRAME, Controls { left: true, right: true, fire: false }).unwrap();
    game.advance(FRAME, Controls { left: true, right: false, fire: false }).unwrap();
    assert_eq!(game.world().row(0).position.unwrap().x, -8_333_334);
    game.advance(FRAME, IDLE).unwrap();
    assert_eq!(game.world().row(0).position.unwrap().x, -8_333_334);
    assert_eq!(game.world().row(0).velocity, Some(Velocity { x: 0, y: 0 }));
    game.advance(FRAME, Controls { left: false, right: true, fire: false }).unwrap();
    assert_eq!(game.world().row(0).position.unwrap().x, 0);
}

#[test]
fn a_laser_flies_up_until_it_has_left_the_arena_and_its_margin() {
    let mut game = Game::new(standard()).unwrap();
    game.spawn_player().unwrap();
    game.advance(FRAME, FIRE).unwrap();
    assert_eq!(lasers(&game)[0].position.unwrap().y, -253_000_000 + 8_333_333);
    let mut steps = 1;
    while !lasers(&game).is_empty() {
        assert!(lasers(&game)[0].position.unwrap().y <= 488_000_000);
        game.advance(FRAME, IDLE).unwrap();
        steps += 1;
    }
    assert_eq!(steps, 89);
    assert_eq!(game.world().len(), 1);
    assert!(!game.world().contains(EntityId(1)));
    assert!(!game.world().contains(EntityId(2)));
}

#[test]
fn a_laser_meets_an_enemy_and_an_explosion_runs_its_course() {
    let mut game = Game::new(standard()).unwrap();
    assert_eq!(game.spawn_player(), Ok(Some(EntityId(0))));
    assert_eq!(game.spawn_enemy_at(27_000_000, -200_000_000), Ok(Some(EntityId(1))));
    assert_eq!(game.enemy_count(), 1);

    let first = game.advance(FRAME, FIRE).unwrap();
    assert_eq!(first.fired, Some((EntityId(2), EntityId(3))));
    assert!(first.hits.is_empty());
    assert_eq!(first.explosions, 0);
    assert_eq!(game.world().len(), 4);

    let second = game.advance(FRAME, FIRE).unwrap();
    assert_eq!(
        second.hits,
        vec![Hit {
            laser: EntityId(2),
            enemy: EntityId(1),
            at: ExplosionRequest { x: 27_000_000, y: -200_000_000, depth: 10 },
        }]
    );
    assert_eq!(second.explosions, 1);
    assert_eq!(game.enemy_count(), 0);
    let now = rows(game.world());
    assert_eq!(now.len(), 3);
    assert_eq!(now[0].id, EntityId(0));
    assert_eq!(now[1].id, EntityId(3));
    assert_eq!(
        now[2],
        Row {
            id: EntityId(5),
            position: Some(Position { x: 27_000_000, y: -200_000_000, depth: 10, scale: 1000 }),
            velocity: None,
            movable: None,
            size: None,
            role: Some(Role::Explosion),
            request: None,
            timer: Some(ExplosionTimer { elapsed: FRAME, frame_duration: 50_000, frame_index: 0 }),
        }
    );
    assert!(!game.world().contains(EntityId(4)));
    assert_eq!(now[2].visual(), Some(Visual::Explosion(0)));

    let mut frames = Vec::new();
    while game.world().contains(EntityId(5)) {
        game.advance(FRAME, IDLE).unwrap();
        if let Some(at) = game.world().find(EntityId(5)) {
            frames.push(game.world().row(at).timer.unwrap().frame_index);
        }
    }
    assert_eq!(frames.first(), Some(&0));
    assert_eq!(frames.last(), Some(&15));
    for pair in frames.windows(2) {
        assert!(pair[1] == pair[0] || pair[1] == pair[0] + 1);
    }
    // The clock has run once when the explosion began; it passes frame 16
    // when more than 800 000 microseconds have come together, at the 48th
    // run. In between it was seen 46 times.
    assert_eq!(frames.len(), 46);
}

#[test]
fn the_count_of_enemies_is_the_number_of_enemies_after_every_tick() {
    let config = Config { enemy_max: 5, spawn_interval: 100_000, ..standard() };
    let mut game = Game::new(config).unwrap();
    game.spawn_player().unwrap();
    let mut most = 0;
    let mut hits = 0;
    for n in 0..3000u32 {
        let controls = Controls { left: n % 7 < 3, right: n % 11 < 5, fire: n % 2 == 0 };
        let report = game.tick(FRAME, controls).unwrap();
        hits += report.step.hits.len();
        let enemies = with_role(game.world(), Role::Enemy).len();
        assert_eq!(game.enemy_count() as usize, enemies);
        assert!(game.enemy_count() <= 5);
        assert!(with_role(game.world(), Role::Player).len() == 1);
        assert!(game
            .world()
            .query(&CapabilitySet { request: true, ..CapabilitySet::any() })
            .is_empty());
        most = most.max(enemies);
    }
    assert_eq!(most, 5);
    assert!(hits <= 3000);
}

#[test]
fn enemies_spawn_once_per_interval_up_to_the_most_allowed() {
    let mut game = Game::new(standard()).unwrap();
    let early = game.tick(999_999, IDLE).unwrap();
    assert!(early.spawned.is_empty());
    assert_eq!(game.enemy_count(), 0);
    let due = game.tick(1, IDLE).unwrap();
    assert_eq!(due.spawned.len(), 1);
    assert_eq!(due.spawned[0], game.world().row(0));
    assert_eq!(due.spawned[0].id, EntityId(0));
    assert_eq!(game.enemy_count(), 1);
    assert!(game.tick(500_000, IDLE).unwrap().spawned.is_empty());
    assert_eq!(game.tick(500_000, IDLE).unwrap().spawned.len(), 1);
    assert_eq!(game.enemy_count(), 2);
    for _ in 0..5 {
        assert!(game.tick(1_000_000, IDLE).unwrap().spawned.is_empty());
    }
    assert_eq!(game.enemy_count(), 2);
    assert_eq!(game.world().len(), 2);
    assert_eq!(game.world().spare_ids(), u64::MAX - 2);
}

#[test]
fn a_long_tick_spawns_an_enemy_for_each_interval_that_has_passed() {
    let mut game = Game::new(Config { enemy_max: 10, ..standard() }).unwrap();
    let report = game.tick(3_500_000, IDLE).unwrap();
    assert_eq!(report.spawned.len(), 3);
    assert_eq!(game.enemy_count(), 3);
    let report = game.tick(500_000, IDLE).unwrap();
    assert_eq!(report.spawned.len(), 1);
    let report = game.tick(u64::MAX, IDLE).unwrap();
    assert_eq!(report.spawned.len(), 6);
    assert_eq!(game.enemy_count(), 10);
    for row in rows(game.world()) {
        let p = row.position.unwrap();
        assert!(-199_000_000 <= p.x && p.x < 199_000_000);
        assert!(-188_000_000 <= p.y && p.y < 188_000_000);
        assert_eq!(row.role, Some(Role::Enemy));
    }
}

#[test]
fn a_step_never_spawns_an_enemy() {
    let mut game = Game::new(standard()).unwrap();
    for _ in 0..10 {
        game.advance(10_000_000, IDLE).unwrap();
    }
    assert_eq!(game.world().len(), 0);
    assert_eq!(game.tick(999_999, IDLE).unwrap().spawned.len(), 0);
}

#[test]
fn spawning_through_the_session_stops_at_the_most_allowed() {
    let mut game = Game::new(standard()).unwrap();
    assert_eq!(game.spawn_enemy_at(0, 0), Ok(Some(EntityId(0))));
    assert_eq!(game.spawn_enemy_at(0, 0), Ok(Some(EntityId(1))));
    for _ in 0..20 {
        assert_eq!(game.spawn_enemy_at(0, 0), Ok(None));
    }
    assert_eq!(game.enemy_count(), 2);
    assert_eq!(game.world().len(), 2);
}

#[test]
fn a_session_has_one_player_at_most() {
    let mut game = Game::new(standard()).unwrap();
    assert_eq!(game.spawn_player(), Ok(Some(EntityId(0))));
    assert_eq!(game.spawn_player(), Ok(None));
    assert_eq!(with_role(game.world(), Role::Player).len(), 1);
}

#[test]
fn a_tick_is_refused_when_the_handles_might_not_suffice() {
    let mut game = Game::starting_at(standard(), u64::MAX - 7).unwrap();
    assert_eq!(game.tick(FRAME, FIRE).unwrap_err(), StoreError::IdsExhausted);
    assert_eq!(game.advance(FRAME, FIRE).unwrap_err(), StoreError::IdsExhausted);
    assert_eq!(game.world().len(), 0);
    assert_eq!(game.world().spare_ids(), 7);
    assert_eq!(game.tick(1_000_000, IDLE).unwrap_err(), StoreError::IdsExhausted);
    assert_eq!(game.enemy_count(), 0);

    let mut game = Game::starting_at(standard(), u64::MAX - 8).unwrap();
    assert!(game.advance(FRAME, FIRE).is_ok());
    assert!(game.tick(FRAME, FIRE).is_ok());
    assert_eq!(game.tick(1_000_000, IDLE).unwrap_err(), StoreError::IdsExhausted);
    assert_eq!(game.world().len(), 0);
}

#[test]
fn a_session_near_the_last_handle_refuses_the_player_and_the_enemy() {
    let mut game = Game::starting_at(standard(), u64::MAX).unwrap();
    assert_eq!(game.spawn_player(), Err(StoreError::IdsExhausted));
    assert_eq!(game.spawn_enemy_at(0, 0), Err(StoreError::IdsExhausted));
    assert_eq!(game.world().len(), 0);
    assert_eq!(game.enemy_count(), 0);
}

#[test]
fn two_sessions_fed_alike_stay_alike() {
    let mut a = Game::new(standard()).unwrap();
    let mut b = Game::new(standard()).unwrap();
    for game in [&mut a, &mut b] {
        game.spawn_player().unwrap();
        game.spawn_enemy_at(-27_000_000, -150_000_000).unwrap();
        game.spawn_enemy_at(27_000_000, 100_000_000).unwrap();
        for n in 0..200u32 {
            let controls = Controls { left: n % 40 < 5, right: n % 40 >= 35, fire: n % 9 == 0 };
            game.advance(FRAME, controls).unwrap();
        }
    }
    assert_eq!(rows(a.world()), rows(b.world()));
    assert_eq!(a.enemy_count(), b.enemy_count());
    assert_eq!(a.enemy_count(), 0);
}
