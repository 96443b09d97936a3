//! The tick driver: a session that owns the store, the count of enemies and
//! the clocks, and runs the stages in their order.
//!
//! A tick runs the spawning of enemies that has come due, then the controls
//! of the player, the movement, the collisions and the explosions.

use vstd::prelude::*;
use crate::collision::{
    after_hits, hits_in, player_laser_hit_enemy_system, EnemyCount, Hit,
};
use crate::components::{EntityId, Owner, Role, Row};
use crate::config::{Config, ConfigError};
use crate::enemy::{enemy_row, enemy_spawn_system, spawn_enemy_at};
use crate::explosion::{
    after_animation, after_materialize, asking, explosion_animation_system,
    explosion_to_spawn_system,
};
use crate::invariants::{
    calm, lemma_animation_keeps, lemma_fire_keeps, lemma_hits_keep, lemma_materialize_keeps,
    lemma_movement_keeps, lemma_push_calm, lemma_steering_keeps, quiet,
};
use crate::movement::{after_movement, movable_system};
use crate::player::{
    after_fire, after_steering, fires, player_fire_system, player_keyboard_event_system,
    player_row, player_spawn_system,
};
use crate::rows::{ascending, below, count_role, lemma_count_none, live};
use crate::world::{StoreError, World};

verus! {

/// The keys that are down during a tick.
#[derive(Clone, Copy, Debug, PartialEq, Eq)]
pub struct Controls {
    pub left: bool,
    pub right: bool,
    pub fire: bool,
}

/// What a session holds, as plain values.
pub struct Snapshot {
    /// The live entities, in the order of their creation.
    pub rows: Seq<Row>,
    /// The handle number that the next new entity gets.
    pub next_id: int,
    pub enemy_count: EnemyCount,
    pub config: Config,
    /// The time gathered towards the next spawning of an enemy.
    pub spawn_clock: u64,
    /// Whether the fire key was down during the tick before.
    pub fire_held: bool,
}

/// What the stages of one step did.
#[derive(Debug)]
pub struct StepReport {
    /// The lasers that the player fired.
    pub fired: Option<(EntityId, EntityId)>,
    /// The lasers that met an enemy.
    pub hits: Vec<Hit>,
    /// How many explosions began.
    pub explosions: usize,
}

/// What one tick did.
#[derive(Debug)]
pub struct TickReport {
    /// The enemies that spawned, as they stood in the store.
    pub spawned: Vec<Row>,
    pub step: StepReport,
}

/// A session of the game.
#[derive(Debug)]
pub struct Game {
    world: World,
    enemy_count: EnemyCount,
    config: Config,
    spawn_clock: u64,
    fire_held: bool,
}

/// What holds of a session between any two operations: the store is in
/// order, the count of enemies is the number of entities that are enemies
/// and is not above the most allowed, there is at most one player, and no
/// enemy is movable or asks for an explosion.
pub open spec fn consistent(s: Snapshot) -> bool {
    &&& ascending(s.rows)
    &&& below(s.rows, s.next_id)
    &&& 0 <= s.next_id <= u64::MAX
    &&& s.config.valid()
    &&& s.enemy_count.0 == count_role(s.rows, Role::Enemy)
    &&& s.enemy_count.0 <= s.config.enemy_max
    &&& count_role(s.rows, Role::Player) <= 1
    &&& calm(s.rows)
    &&& s.spawn_clock < s.config.spawn_interval
}

/// The handle was given out and its entity is gone.
pub open spec fn retired(s: Snapshot, id: EntityId) -> bool {
    id.0 < s.next_id && !live(s.rows, id)
}

/// A session at its start, with handles from `first` on.
pub open spec fn initial(config: Config, first: u64) -> Snapshot {
    Snapshot {
        rows: Seq::empty(),
        next_id: first as int,
        enemy_count: EnemyCount(0),
        config,
        spawn_clock: 0,
        fire_held: false,
    }
}

/// Whether the handles left suffice for a step that follows `spawns`
/// spawnings, whatever the step does. A step is refused where they do not.
pub open spec fn room(s: Snapshot, spawns: int) -> bool {
    s.next_id + spawns + 3 * (s.rows.len() + spawns) + 8 <= u64::MAX
}

/// The session after the player has come in, if it could.
pub open spec fn after_entry(s: Snapshot) -> Snapshot {
    if count_role(s.rows, Role::Player) == 0 && s.next_id < u64::MAX {
        Snapshot {
            rows: s.rows.push(player_row(EntityId(s.next_id as u64), s.config)),
            next_id: s.next_id + 1,
            ..s
        }
    } else {
        s
    }
}

/// The session after an enemy has spawned at a place, if it could.
pub open spec fn after_spawn(s: Snapshot, x: i64, y: i64) -> Snapshot {
    if s.enemy_count.0 < s.config.enemy_max && s.next_id < u64::MAX {
        Snapshot {
            rows: s.rows.push(enemy_row(EntityId(s.next_id as u64), x, y, s.config)),
            next_id: s.next_id + 1,
            enemy_count: EnemyCount((s.enemy_count.0 + 1) as u32),
            ..s
        }
    } else {
        s
    }
}

/// The session after the controls of the player: the player is steered, and
/// it fires if the fire key is down and was not down the tick before.
pub open spec fn after_controls(s: Snapshot, controls: Controls) -> Snapshot {
    let steered = after_steering(s.rows, controls.left, controls.right);
    if fires(steered, controls.fire && !s.fire_held) {
        Snapshot {
            rows: after_fire(steered, s.next_id, s.config),
            next_id: s.next_id + 2,
            fire_held: controls.fire,
            ..s
        }
    } else {
        Snapshot { rows: steered, fire_held: controls.fire, ..s }
    }
}

/// The session after the movement stage.
pub open spec fn after_moves(s: Snapshot) -> Snapshot {
    Snapshot { rows: after_movement(s.rows, s.config), ..s }
}

/// The session after the collision stage.
pub open spec fn after_collisions(s: Snapshot) -> Snapshot {
    let hits = hits_in(s.rows);
    Snapshot {
        rows: after_hits(s.rows, s.next_id, hits),
        next_id: s.next_id + hits.len(),
        enemy_count: EnemyCount((s.enemy_count.0 - hits.len()) as u32),
        ..s
    }
}

/// The session after both halves of the explosion stage.
pub open spec fn after_explosions(s: Snapshot, elapsed: u64) -> Snapshot {
    Snapshot {
        rows: after_animation(after_materialize(s.rows, s.next_id, s.config), elapsed, s.config),
        next_id: s.next_id + s.rows.filter(asking()).len(),
        ..s
    }
}

/// The session after one step: controls, movement, collisions, explosions.
pub open spec fn after_advance(s: Snapshot, elapsed: u64, controls: Controls) -> Snapshot {
    after_explosions(after_collisions(after_moves(after_controls(s, controls))), elapsed)
}

/// How many enemies spawn in a tick: one for each interval that the spawn
/// clock completes, as far as the most allowed is not reached.
pub open spec fn spawns_due(s: Snapshot, elapsed: u64) -> int {
    let due = (s.spawn_clock + elapsed) / (s.config.spawn_interval as int);
    let open = s.config.enemy_max - s.enemy_count.0;
    if due > open {
        open
    } else {
        due
    }
}

/// Whether a row is an enemy that has just spawned under a handle, at some
/// place inside the spawning region.
pub open spec fn is_spawn(row: Row, id: int, config: Config) -> bool {
    &&& row.position is Some
    &&& config.interior(row.position->0.x, row.position->0.y)
    &&& row == enemy_row(EntityId(id as u64), row.position->0.x, row.position->0.y, config)
}

/// The session after the spawn clock has gone on and the enemies that were
/// due have spawned.
pub open spec fn with_spawned(s: Snapshot, elapsed: u64, spawned: Seq<Row>) -> Snapshot {
    Snapshot {
        rows: s.rows + spawned,
        next_id: s.next_id + spawned.len(),
        enemy_count: EnemyCount((s.enemy_count.0 + spawned.len()) as u32),
        spawn_clock: ((s.spawn_clock + elapsed) % (s.config.spawn_interval as int)) as u64,
        ..s
    }
}

/// The session after spawning has been tried at each of `places` in turn.
pub open spec fn after_spawns(s: Snapshot, places: Seq<(i64, i64)>) -> Snapshot
    decreases places.len(),
{
    if places.len() == 0 {
        s
    } else {
        after_spawn(after_spawns(s, places.drop_last()), places.last().0, places.last().1)
    }
}

/// At the most allowed, spawning changes nothing, however often it is tried.
pub proof fn lemma_spawns_at_cap(s: Snapshot, places: Seq<(i64, i64)>)
    requires
        s.enemy_count.0 >= s.config.enemy_max,
    ensures
        after_spawns(s, places) == s,
    decreases places.len(),
{
    if places.len() > 0 {
        lemma_spawns_at_cap(s, places.drop_last());
    }
}

/// The count of enemies never passes the most allowed, however often
/// spawning is tried, and spawning never lowers it.
pub proof fn lemma_spawns_keep_cap(s: Snapshot, places: Seq<(i64, i64)>)
    requires
        s.enemy_count.0 <= s.config.enemy_max,
    ensures
        after_spawns(s, places).enemy_count.0 <= s.config.enemy_max,
        after_spawns(s, places).enemy_count.0 >= s.enemy_count.0,
        after_spawns(s, places).config == s.config,
    decreases places.len(),
{
    if places.len() > 0 {
        lemma_spawns_keep_cap(s, places.drop_last());
    }
}

/// One step of a run of steps: the time it takes and the keys held in it.
pub struct Step {
    pub elapsed: u64,
    pub controls: Controls,
}

/// Whether the player fires in a step taken from a session.
pub open spec fn fires_at(s: Snapshot, controls: Controls) -> bool {
    fires(after_steering(s.rows, controls.left, controls.right), controls.fire && !s.fire_held)
}

/// The session after a run of steps, one after the other.
pub open spec fn after_run(s: Snapshot, steps: Seq<Step>) -> Snapshot
    decreases steps.len(),
{
    if steps.len() == 0 {
        s
    } else {
        after_advance(after_run(s, steps.drop_last()), steps.last().elapsed, steps.last().controls)
    }
}

/// In how many steps of a run the player fires.
pub open spec fn shots(s: Snapshot, steps: Seq<Step>) -> nat
    decreases steps.len(),
{
    if steps.len() == 0 {
        0
    } else {
        shots(s, steps.drop_last()) + if fires_at(
            after_run(s, steps.drop_last()),
            steps.last().controls,
        ) {
            1nat
        } else {
            0nat
        }
    }
}

/// A step in which the player fires adds two lasers of the player, at the
/// end of the rows as they stand after the steering, and nothing else; a
/// step in which it does not fire adds none.
pub proof fn lemma_shot_is_two_lasers(s: Snapshot, controls: Controls)
    ensures
        ({
            let steered = after_steering(s.rows, controls.left, controls.right);
            let after = after_controls(s, controls);
            &&& fires_at(s, controls) ==> after.rows.len() == steered.len() + 2
                && after.rows.take(steered.len() as int) == steered && count_role(
                after.rows,
                Role::Laser(Owner::FromPlayer),
            ) == count_role(steered, Role::Laser(Owner::FromPlayer)) + 2 && after.next_id
                == s.next_id + 2
            &&& !fires_at(s, controls) ==> after.rows == steered && after.next_id == s.next_id
        }),
{
    lemma_fire_keeps(
        after_steering(s.rows, controls.left, controls.right),
        s.next_id,
        s.config,
    );
}

/// Holding the fire key fires once at most: over a run of steps, however
/// long, in all of which the key is down, the player fires in the first
/// step or in none, and in none at all if the key was down before the run.
pub proof fn lemma_held_fire_fires_once(s: Snapshot, steps: Seq<Step>)
    requires
        forall|k: int| 0 <= k < steps.len() ==> (#[trigger] steps[k]).controls.fire,
    ensures
        shots(s, steps) <= 1,
        s.fire_held ==> shots(s, steps) == 0,
        steps.len() > 0 ==> after_run(s, steps).fire_held,
        steps.len() > 0 ==> shots(s, steps) == shots(s, steps.take(1)),
        steps.len() == 0 ==> after_run(s, steps) == s,
    decreases steps.len(),
{
    if steps.len() > 0 {
        let front = steps.drop_last();
        assert forall|k: int| 0 <= k < front.len() implies (#[trigger] front[k]).controls.fire by {
            assert(front[k] == steps[k]);
        }
        lemma_held_fire_fires_once(s, front);
        assert(steps[steps.len() - 1].controls.fire);
        if front.len() > 0 {
            assert(after_run(s, front).fire_held);
            assert(steps.take(1) =~= front.take(1));
        } else {
            assert(steps.take(1) =~= steps);
        }
    }
}

/// Fire needs a new press: after a step during which the fire key was down,
/// a step during which it is still down fires nothing.
pub proof fn lemma_fire_needs_new_press(
    s: Snapshot,
    elapsed: u64,
    first: Controls,
    second: Controls,
)
    requires
        first.fire,
    ensures
        ({
            let between = after_advance(s, elapsed, first);
            &&& between.fire_held
            &&& after_controls(between, second).next_id == between.next_id
            &&& after_controls(between, second).rows == after_steering(
                between.rows,
                second.left,
                second.right,
            )
        }),
{
}

/// Once the key has been let go, the next press fires again, if there is
/// one player to fire.
pub proof fn lemma_fire_after_release(s: Snapshot, elapsed: u64, first: Controls, second: Controls)
    requires
        !first.fire,
        second.fire,
    ensures
        ({
            let between = after_advance(s, elapsed, first);
            let steered = after_steering(between.rows, second.left, second.right);
            fires(steered, true) ==> after_controls(between, second).rows == after_fire(
                steered,
                between.next_id,
                between.config,
            )
        }),
{
}

impl View for Game {
    type V = Snapshot;

    closed spec fn view(&self) -> Snapshot {
        Snapshot {
            rows: self.world@,
            next_id: self.world.next_id() as int,
            enemy_count: self.enemy_count,
            config: self.config,
            spawn_clock: self.spawn_clock,
            fire_held: self.fire_held,
        }
    }
}

impl Game {
    /// The session is consistent.
    pub open spec fn wf(&self) -> bool {
        consistent(self@)
    }

    /// A session at its start, under a configuration that the rules can run
    /// on; else what is wrong with the configuration.
    pub fn new(config: Config) -> (made: Result<Game, ConfigError>)
        ensures
            match made {
                Ok(game) => config.fault() is None && game.wf() && game@ == initial(config, 0),
                Err(e) => config.fault() == Some(e),
            },
    {
        Game::starting_at(config, 0)
    }

    /// A session at its start whose handles start at `first`; else what is
    /// wrong with the configuration.
    pub fn starting_at(config: Config, first: u64) -> (made: Result<Game, ConfigError>)
        ensures
            match made {
                Ok(game) => config.fault() is None && game.wf() && game@ == initial(config, first),
                Err(e) => config.fault() == Some(e),
            },
    {
        match config.validate() {
            Ok(()) => {
                let game = Game {
                    world: World::starting_at(first),
                    enemy_count: EnemyCount(0),
                    config,
                    spawn_clock: 0,
                    fire_held: false,
                };
                proof {
                    lemma_count_none(Seq::<Row>::empty(), Role::Enemy);
                    lemma_count_none(Seq::<Row>::empty(), Role::Player);
                }
                Ok(game)
            },
            Err(e) => Err(e),
        }
    }

    /// The store, to read.
    pub fn world(&self) -> (world: &World)
        ensures
            world@ == self@.rows,
            world.next_id() == self@.next_id,
            self.wf() ==> world.wf(),
    {
        &self.world
    }

    /// How many enemies are alive.
    pub fn enemy_count(&self) -> (n: u32)
        ensures
            n == self@.enemy_count.0,
    {
        self.enemy_count.0
    }

    /// The configuration of the session.
    pub fn config(&self) -> (config: &Config)
        ensures
            *config == self@.config,
    {
        &self.config
    }

    /// Brings the player in, unless a player is there already or no handle is
    /// left.
    pub fn spawn_player(&mut self) -> (made: Result<Option<EntityId>, StoreError>)
        requires
            old(self).wf(),
        ensures
            final(self).wf(),
            forall|id: EntityId| retired(old(self)@, id) ==> retired(final(self)@, id),
            final(self)@ == after_entry(old(self)@),
            made == if count_role(old(self)@.rows, Role::Player) > 0 {
                Ok::<Option<EntityId>, StoreError>(None)
            } else if old(self)@.next_id == u64::MAX {
                Err::<Option<EntityId>, StoreError>(StoreError::IdsExhausted)
            } else {
                Ok::<Option<EntityId>, StoreError>(Some(EntityId(old(self)@.next_id as u64)))
            },
    {
        let made = player_spawn_system(&mut self.world, &self.config);
        proof {
            if self@.rows.len() > old(self)@.rows.len() {
                lemma_push_calm(old(self)@.rows, self@.rows.last());
            }
        }
        made
    }

    /// Spawns an enemy at a given place, if fewer enemies are alive than may
    /// be and a handle is left.
    pub fn spawn_enemy_at(&mut self, x: i64, y: i64) -> (made: Result<
        Option<EntityId>,
        StoreError,
    >)
        requires
            old(self).wf(),
        ensures
            final(self).wf(),
            forall|id: EntityId| retired(old(self)@, id) ==> retired(final(self)@, id),
            final(self)@ == after_spawn(old(self)@, x, y),
            made == if old(self)@.enemy_count.0 >= old(self)@.config.enemy_max {
                Ok::<Option<EntityId>, StoreError>(None)
            } else if old(self)@.next_id == u64::MAX {
                Err::<Option<EntityId>, StoreError>(StoreError::IdsExhausted)
            } else {
                Ok::<Option<EntityId>, StoreError>(Some(EntityId(old(self)@.next_id as u64)))
            },
    {
        let made = spawn_enemy_at(&mut self.world, &mut self.enemy_count, &self.config, x, y);
        proof {
            if self@.rows.len() > old(self)@.rows.len() {
                lemma_push_calm(old(self)@.rows, self@.rows.last());
            }
        }
        made
    }

    /// Spawns an enemy at a place drawn at random inside the spawning
    /// region, if fewer enemies are alive than may be and a handle is left.
    pub fn spawn_enemy(&mut self) -> (made: Result<Option<EntityId>, StoreError>)
        requires
            old(self).wf(),
        ensures
            final(self).wf(),
            forall|id: EntityId| retired(old(self)@, id) ==> retired(final(self)@, id),
            made == if old(self)@.enemy_count.0 >= old(self)@.config.enemy_max {
                Ok::<Option<EntityId>, StoreError>(None)
            } else if old(self)@.next_id == u64::MAX {
                Err::<Option<EntityId>, StoreError>(StoreError::IdsExhausted)
            } else {
                Ok::<Option<EntityId>, StoreError>(Some(EntityId(old(self)@.next_id as u64)))
            },
            !(made is Ok && made->Ok_0 is Some) ==> final(self)@ == old(self)@,
            made is Ok && made->Ok_0 is Some ==> {
                let row = final(self)@.rows.last();
                &&& final(self)@.rows.len() == old(self)@.rows.len() + 1
                &&& is_spawn(row, old(self)@.next_id, old(self)@.config)
                &&& final(self)@ == after_spawn(old(self)@, row.position->0.x, row.position->0.y)
            },
    {
        let made = enemy_spawn_system(&mut self.world, &mut self.enemy_count, &self.config);
        proof {
            if self@.rows.len() > old(self)@.rows.len() {
                lemma_push_calm(old(self)@.rows, self@.rows.last());
            }
        }
        made
    }

    /// Whether the handles left suffice for a step after `spawns` spawnings.
    fn has_room(&self, spawns: u32) -> (yes: bool)
        ensures
            yes == room(self@, spawns as int),
    {
        let rows: u128 = self.world.len() as u128 + spawns as u128;
        let need: u128 = spawns as u128 + 3 * rows + 8;
        need <= self.world.spare_ids() as u128
    }

    /// The stages of one step, in their order.
    fn run_stages(&mut self, elapsed: u64, controls: Controls) -> (report: StepReport)
        requires
            old(self).wf(),
            room(old(self)@, 0),
        ensures
            final(self).wf(),
            forall|id: EntityId| retired(old(self)@, id) ==> retired(final(self)@, id),
            final(self)@ == after_advance(old(self)@, elapsed, controls),
            quiet(final(self)@.rows),
            report.hits@ == hits_in(after_moves(after_controls(old(self)@, controls)).rows),
            report.fired is Some <==> fires(
                after_steering(old(self)@.rows, controls.left, controls.right),
                controls.fire && !old(self)@.fire_held,
            ),
            report.explosions == after_collisions(
                after_moves(after_controls(old(self)@, controls)),
            ).rows.filter(asking()).len(),
    {
        let ghost s0 = self@;
        let ghost w0 = self.world;
        proof {
            lemma_steering_keeps(s0.rows, controls.left, controls.right);
        }
        player_keyboard_event_system(&mut self.world, controls.left, controls.right);
        let ghost steered = self.world@;
        assert(forall|id: EntityId| w0.retired(id) ==> self.world.retired(id));
        let edge = controls.fire && !self.fire_held;
        self.fire_held = controls.fire;
        proof {
            lemma_fire_keeps(steered, s0.next_id, s0.config);
        }
        // The room asked for rules out every refusal of the store below.
        let fired = match player_fire_system(&mut self.world, edge, &self.config) {
            Ok(lasers) => lasers,
            Err(e) => None,
        };
        let ghost s1 = self@;
        assert(forall|id: EntityId| w0.retired(id) ==> self.world.retired(id));
        assert(s1 == after_controls(s0, controls));
        proof {
            lemma_movement_keeps(s1.rows, s1.config);
        }
        movable_system(&mut self.world, &self.config);
        let ghost s2 = self@;
        assert(forall|id: EntityId| w0.retired(id) ==> self.world.retired(id));
        assert(s2 == after_moves(s1));
        proof {
            lemma_hits_keep(s2.rows, s2.next_id);
        }
        let hits = match player_laser_hit_enemy_system(&mut self.world, &mut self.enemy_count) {
            Ok(hits) => hits,
            Err(e) => Vec::new(),
        };
        let ghost s3 = self@;
        assert(forall|id: EntityId| w0.retired(id) ==> self.world.retired(id));
        assert(s3 == after_collisions(s2));
        proof {
            lemma_materialize_keeps(s3.rows, s3.next_id, s3.config);
            lemma_animation_keeps(
                after_materialize(s3.rows, s3.next_id, s3.config),
                elapsed,
                s3.config,
            );
        }
        let explosions = match explosion_to_spawn_system(&mut self.world, &self.config) {
            Ok(made) => made,
            Err(e) => 0,
        };
        assert(forall|id: EntityId| w0.retired(id) ==> self.world.retired(id));
        explosion_animation_system(&mut self.world, elapsed, &self.config);
        assert(forall|id: EntityId| w0.retired(id) ==> self.world.retired(id));
        assert(self@ == after_explosions(s3, elapsed));
        proof {
            assert forall|id: EntityId| retired(s0, id) implies retired(self@, id) by {
                assert(w0.retired(id));
                assert(self.world.retired(id));
            }
        }
        StepReport { fired, hits, explosions }
    }

    /// One step without the spawning of enemies: the controls of the player,
    /// the movement, the collisions and the explosions, in this order.
    ///
    /// The step is refused, and nothing changes, where the handles left
    /// might not suffice for it.
    pub fn advance(&mut self, elapsed: u64, controls: Controls) -> (outcome: Result<
        StepReport,
        StoreError,
    >)
        requires
            old(self).wf(),
        ensures
            final(self).wf(),
            forall|id: EntityId| retired(old(self)@, id) ==> retired(final(self)@, id),
            room(old(self)@, 0) ==> {
                &&& outcome is Ok
                &&& final(self)@ == after_advance(old(self)@, elapsed, controls)
                &&& quiet(final(self)@.rows)
                &&& outcome->Ok_0.hits@ == hits_in(
                    after_moves(after_controls(old(self)@, controls)).rows,
                )
                &&& outcome->Ok_0.fired is Some <==> fires(
                    after_steering(old(self)@.rows, controls.left, controls.right),
                    controls.fire && !old(self)@.fire_held,
                )
                &&& outcome->Ok_0.explosions == after_collisions(
                    after_moves(after_controls(old(self)@, controls)),
                ).rows.filter(asking()).len()
            },
            !room(old(self)@, 0) ==> outcome is Err && outcome->Err_0 == StoreError::IdsExhausted
                && final(self)@ == old(self)@,
    {
        if !self.has_room(0) {
            return Err(StoreError::IdsExhausted);
        }
        Ok(self.run_stages(elapsed, controls))
    }

    /// One tick. The spawn clock goes on by `elapsed` microseconds, and for
    /// each interval that it completes an enemy spawns at a place drawn at
    /// random, as long as fewer enemies are alive than may be. Then the step
    /// runs: controls, movement, collisions, explosions.
    ///
    /// The tick is refused, and nothing changes, where the handles left
    /// might not suffice for it.
    pub fn tick(&mut self, elapsed: u64, controls: Controls) -> (outcome: Result<
        TickReport,
        StoreError,
    >)
        requires
            old(self).wf(),
        ensures
            final(self).wf(),
            forall|id: EntityId| retired(old(self)@, id) ==> retired(final(self)@, id),
            final(self)@.enemy_count.0 == count_role(final(self)@.rows, Role::Enemy),
            final(self)@.enemy_count.0 <= final(self)@.config.enemy_max,
            room(old(self)@, spawns_due(old(self)@, elapsed)) ==> {
                &&& outcome is Ok
                &&& outcome->Ok_0.spawned@.len() == spawns_due(old(self)@, elapsed)
                &&& forall|k: int|
                    0 <= k < outcome->Ok_0.spawned@.len() ==> is_spawn(
                        #[trigger] outcome->Ok_0.spawned@[k],
                        old(self)@.next_id + k,
                        old(self)@.config,
                    )
                &&& final(self)@ == after_advance(
                    with_spawned(old(self)@, elapsed, outcome->Ok_0.spawned@),
                    elapsed,
                    controls,
                )
                &&& quiet(final(self)@.rows)
                &&& outcome->Ok_0.step.hits@ == hits_in(
                    after_moves(
                        after_controls(
                            with_spawned(old(self)@, elapsed, outcome->Ok_0.spawned@),
                            controls,
                        ),
                    ).rows,
                )
                &&& outcome->Ok_0.step.fired is Some <==> fires(
                    after_steering(
                        with_spawned(old(self)@, elapsed, outcome->Ok_0.spawned@).rows,
                        controls.left,
                        controls.right,
                    ),
                    controls.fire && !old(self)@.fire_held,
                )
                &&& outcome->Ok_0.step.explosions == after_collisions(
                    after_moves(
                        after_controls(
                            with_spawned(old(self)@, elapsed, outcome->Ok_0.spawned@),
                            controls,
                        ),
                    ),
                ).rows.filter(asking()).len()
            },
            !room(old(self)@, spawns_due(old(self)@, elapsed)) ==> outcome is Err
                && outcome->Err_0 == StoreError::IdsExhausted && final(self)@ == old(self)@,
    {
        let total: u128 = self.spawn_clock as u128 + elapsed as u128;
        let interval: u128 = self.config.spawn_interval as u128;
        let due: u128 = total / interval;
        let open: u32 = self.config.enemy_max - self.enemy_count.0;
        let waves: u32 = if due > open as u128 {
            open
        } else {
            due as u32
        };
        if !self.has_room(waves) {
            return Err(StoreError::IdsExhausted);
        }
        let ghost s0 = self@;
        self.spawn_clock = (total % interval) as u64;
        let mut spawned: Vec<Row> = Vec::new();
        let mut k: u32 = 0;
        while k < waves
            invariant
                k <= waves,
                waves <= s0.config.enemy_max - s0.enemy_count.0,
                self.world.wf(),
                self@ == with_spawned(s0, elapsed, spawned@),
                spawned@.len() == k,
                consistent(s0),
                room(s0, waves as int),
                calm(self@.rows),
                count_role(self@.rows, Role::Player) == count_role(s0.rows, Role::Player),
                self@.enemy_count.0 == count_role(self@.rows, Role::Enemy),
                forall|j: int|
                    0 <= j < spawned@.len() ==> is_spawn(
                        #[trigger] spawned@[j],
                        s0.next_id + j,
                        s0.config,
                    ),
            decreases waves - k,
        {
            let ghost before = self.world@;
            let ghost listed = spawned@;
            let made = enemy_spawn_system(&mut self.world, &mut self.enemy_count, &self.config);
            let row = self.world.row(self.world.len() - 1);
            spawned.push(row);
            proof {
                let after = self.world@;
                assert(after == before.push(row));
                assert(s0.rows + spawned@ =~= (s0.rows + listed).push(row));
                lemma_push_calm(before, row);
            }
            k += 1;
        }
        let step = self.run_stages(elapsed, controls);
        Ok(TickReport { spawned, step })
    }
}

} // verus!
