//! The spawning of enemies, up to the most that may be alive at once.

use vstd::prelude::*;
use rand::Rng;
use crate::collision::EnemyCount;
use crate::components::{EntityId, Position, Role, Row};
use crate::config::Config;
use crate::rows::{count_role, lemma_count_push};
use crate::world::{StoreError, World};

verus! {

/// `rand::Rng::gen_range` on `rand::thread_rng()`, over the integers from
/// `low` up to, but not including, `high`. It is taken for granted that the
/// result lies in that range; which of its values comes is left open. The
/// call panics on an empty range, which is why `low < high` is asked for.
#[verifier::external_body]
fn random_between(low: i64, high: i64) -> (r: i64)
    requires
        low < high,
    ensures
        low <= r < high,
{
    rand::thread_rng().gen_range(low..high)
}

/// The row of an enemy that has just spawned.
pub open spec fn enemy_row(id: EntityId, x: i64, y: i64, config: Config) -> Row {
    Row {
        id,
        position: Some(Position { x, y, depth: config.depth, scale: config.sprite_scale }),
        velocity: None,
        movable: None,
        size: Some(config.enemy_size),
        role: Some(Role::Enemy),
        request: None,
        timer: None,
    }
}

/// Whether an enemy may spawn: fewer are alive than may be.
pub open spec fn may_spawn(count: EnemyCount, config: Config) -> bool {
    count.0 < config.enemy_max
}

/// Spawns an enemy at a given place, if fewer enemies are alive than may be,
/// and counts it. Returns its handle.
///
/// Nothing changes where the store has no handle left.
pub fn spawn_enemy_at(
    world: &mut World,
    enemy_count: &mut EnemyCount,
    config: &Config,
    x: i64,
    y: i64,
) -> (made: Result<Option<EntityId>, StoreError>)
    requires
        old(world).wf(),
    ensures
        final(world).wf(),
        forall|id: EntityId| old(world).retired(id) ==> final(world).retired(id),
        old(enemy_count).0 == count_role(old(world)@, Role::Enemy) ==> final(enemy_count).0
            == count_role(final(world)@, Role::Enemy),
        old(enemy_count).0 <= config.enemy_max ==> final(enemy_count).0 <= config.enemy_max,
        forall|role: Role|
            role != Role::Enemy ==> count_role(final(world)@, role) == count_role(
                old(world)@,
                role,
            ),
        !may_spawn(*old(enemy_count), *config) ==> {
            &&& made == Ok::<Option<EntityId>, StoreError>(None)
            &&& final(world)@ == old(world)@
            &&& final(world).next_id() == old(world).next_id()
            &&& *final(enemy_count) == *old(enemy_count)
        },
        may_spawn(*old(enemy_count), *config) && old(world).next_id() == u64::MAX ==> {
            &&& made == Err::<Option<EntityId>, StoreError>(StoreError::IdsExhausted)
            &&& final(world)@ == old(world)@
            &&& final(world).next_id() == old(world).next_id()
            &&& *final(enemy_count) == *old(enemy_count)
        },
        may_spawn(*old(enemy_count), *config) && old(world).next_id() < u64::MAX ==> {
            &&& made == Ok::<Option<EntityId>, StoreError>(Some(EntityId(old(world).next_id())))
            &&& final(world)@ == old(world)@.push(
                enemy_row(EntityId(old(world).next_id()), x, y, *config),
            )
            &&& final(world).next_id() == old(world).next_id() + 1
            &&& final(enemy_count).0 == old(enemy_count).0 + 1
        },
{
    if enemy_count.0 >= config.enemy_max {
        return Ok(None);
    }
    let template = Row {
        id: EntityId(0),
        position: Some(Position { x, y, depth: config.depth, scale: config.sprite_scale }),
        velocity: None,
        movable: None,
        size: Some(config.enemy_size),
        role: Some(Role::Enemy),
        request: None,
        timer: None,
    };
    proof {
        assert forall|role: Role| true implies count_role(
            old(world)@.push(template.with_id(EntityId(old(world).next_id()))),
            role,
        ) == count_role(old(world)@, role) + (if role == Role::Enemy {
            1nat
        } else {
            0nat
        }) by {
            lemma_count_push(
                old(world)@,
                template.with_id(EntityId(old(world).next_id())),
                role,
            );
        }
    }
    match world.spawn(template) {
        Ok(id) => {
            enemy_count.0 = enemy_count.0 + 1;
            Ok(Some(id))
        },
        Err(e) => Err(StoreError::IdsExhausted),
    }
}

/// The enemy stage. If fewer enemies are alive than may be, one spawns at a
/// place drawn at random inside the arena, away from its edge by the inset,
/// and is counted. Otherwise nothing happens. Returns the handle of the
/// enemy.
///
/// Nothing changes where the store has no handle left.
pub fn enemy_spawn_system(world: &mut World, enemy_count: &mut EnemyCount, config: &Config) -> (made:
    Result<Option<EntityId>, StoreError>)
    requires
        old(world).wf(),
        config.span_x() > 0,
        config.span_y() > 0,
    ensures
        final(world).wf(),
        forall|id: EntityId| old(world).retired(id) ==> final(world).retired(id),
        old(enemy_count).0 == count_role(old(world)@, Role::Enemy) ==> final(enemy_count).0
            == count_role(final(world)@, Role::Enemy),
        old(enemy_count).0 <= config.enemy_max ==> final(enemy_count).0 <= config.enemy_max,
        forall|role: Role|
            role != Role::Enemy ==> count_role(final(world)@, role) == count_role(
                old(world)@,
                role,
            ),
        !may_spawn(*old(enemy_count), *config) ==> {
            &&& made == Ok::<Option<EntityId>, StoreError>(None)
            &&& final(world)@ == old(world)@
            &&& final(world).next_id() == old(world).next_id()
            &&& *final(enemy_count) == *old(enemy_count)
        },
        may_spawn(*old(enemy_count), *config) && old(world).next_id() == u64::MAX ==> {
            &&& made == Err::<Option<EntityId>, StoreError>(StoreError::IdsExhausted)
            &&& final(world)@ == old(world)@
            &&& final(world).next_id() == old(world).next_id()
            &&& *final(enemy_count) == *old(enemy_count)
        },
        may_spawn(*old(enemy_count), *config) && old(world).next_id() < u64::MAX ==> {
            &&& made == Ok::<Option<EntityId>, StoreError>(Some(EntityId(old(world).next_id())))
            &&& final(world)@.len() == old(world)@.len() + 1
            &&& final(world)@.last().position is Some
            &&& config.interior(
                final(world)@.last().position->0.x,
                final(world)@.last().position->0.y,
            )
            &&& final(world)@ == old(world)@.push(
                enemy_row(
                    EntityId(old(world).next_id()),
                    final(world)@.last().position->0.x,
                    final(world)@.last().position->0.y,
                    *config,
                ),
            )
            &&& final(world).next_id() == old(world).next_id() + 1
            &&& final(enemy_count).0 == old(enemy_count).0 + 1
        },
{
    if enemy_count.0 < config.enemy_max {
        let w_span: i64 = (config.win_size.w / 2 - config.spawn_inset) as i64;
        let h_span: i64 = (config.win_size.h / 2 - config.spawn_inset) as i64;
        let x = random_between(-w_span, w_span);
        let y = random_between(-h_span, h_span);
        spawn_enemy_at(world, enemy_count, config, x, y)
    } else {
        Ok(None)
    }
}

} // verus!
