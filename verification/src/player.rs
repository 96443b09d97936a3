//! The stages of the player: its entry, its steering and its lasers.

use vstd::prelude::*;
use crate::components::{
    CapabilitySet, Component, EntityId, Movable, Owner, Position, Role, Row, Velocity, UNIT,
};
use crate::config::Config;
use crate::fixed::{clamp, reach, saturate, scaled};
use crate::rows::{
    count_role, lemma_count_push, lemma_filtered_row, lemma_slot_unique, matching, slot,
};
use crate::world::{StoreError, World};

verus! {

/// What the firing stage asks of the player: the role and a place.
pub open spec fn pilot_caps() -> CapabilitySet {
    CapabilitySet { position: true, role: Some(Role::Player), ..CapabilitySet::nothing() }
}

/// What the steering stage asks of the player: the role and a velocity.
pub open spec fn helm_caps() -> CapabilitySet {
    CapabilitySet { velocity: true, role: Some(Role::Player), ..CapabilitySet::nothing() }
}

/// Where the centre of the player stands when it enters: above the lower
/// edge by its scaled half-height and the lift.
pub open spec fn player_start_y(config: Config) -> int {
    -(config.win_size.h / 2) + reach(config.player_size.half_height, config.sprite_scale) / (
    UNIT as int) + config.player_lift
}

/// The row of a player that has just entered.
pub open spec fn player_row(id: EntityId, config: Config) -> Row {
    Row {
        id,
        position: Some(
            Position {
                x: 0,
                y: player_start_y(config) as i64,
                depth: config.depth,
                scale: config.sprite_scale,
            },
        ),
        velocity: Some(Velocity { x: 0, y: 0 }),
        movable: Some(Movable { auto_despawn: false, carry_x: 0, carry_y: 0 }),
        size: Some(config.player_size),
        role: Some(Role::Player),
        request: None,
        timer: None,
    }
}

/// The row of a laser of the player that has just been fired.
pub open spec fn laser_row(id: EntityId, x: i64, y: i64, config: Config) -> Row {
    Row {
        id,
        position: Some(Position { x, y, depth: config.depth, scale: config.sprite_scale }),
        velocity: Some(Velocity { x: 0, y: 1000 }),
        movable: Some(Movable { auto_despawn: true, carry_x: 0, carry_y: 0 }),
        size: Some(config.laser_size),
        role: Some(Role::Laser(Owner::FromPlayer)),
        request: None,
        timer: None,
    }
}

/// Whether the firing stage fires: the key has just gone down, and there is
/// exactly one player with a place.
pub open spec fn fires(rows: Seq<Row>, just_pressed: bool) -> bool {
    just_pressed && rows.filter(matching(pilot_caps())).len() == 1
}

/// The rows after the player has fired: a laser to its right, then one to
/// its left, both at the same height.
pub open spec fn after_fire(rows: Seq<Row>, next_id: int, config: Config) -> Seq<Row> {
    let at = rows.filter(matching(pilot_caps()))[0].position->0;
    let y = clamp(at.y + config.laser_offset_y);
    rows.push(
        laser_row(EntityId(next_id as u64), clamp(at.x + config.laser_offset_x), y, config),
    ).push(
        laser_row(EntityId((next_id + 1) as u64), clamp(at.x - config.laser_offset_x), y, config),
    )
}

/// The velocity along x that the keys ask for: left wins over right.
pub open spec fn steering(left: bool, right: bool) -> i32 {
    if left {
        -1000i32
    } else if right {
        1000i32
    } else {
        0i32
    }
}

/// The rows after steering: where there is exactly one player with a
/// velocity, its velocity along x is what the keys ask for.
pub open spec fn after_steering(rows: Seq<Row>, left: bool, right: bool) -> Seq<Row> {
    let held = rows.filter(matching(helm_caps()));
    if held.len() == 1 {
        let i = slot(rows, held[0].id);
        rows.update(
            i,
            rows[i].with(
                Component::Velocity(
                    Velocity { x: steering(left, right), y: held[0].velocity->0.y },
                ),
            ),
        )
    } else {
        rows
    }
}

/// Brings the player in, unless a player is there already: at most one
/// entity is the player at any time.
pub fn player_spawn_system(world: &mut World, config: &Config) -> (made: Result<
    Option<EntityId>,
    StoreError,
>)
    requires
        old(world).wf(),
    ensures
        final(world).wf(),
        forall|id: EntityId| old(world).retired(id) ==> final(world).retired(id),
        count_role(old(world)@, Role::Player) <= 1 ==> count_role(final(world)@, Role::Player) <= 1,
        forall|role: Role|
            role != Role::Player ==> count_role(final(world)@, role) == count_role(
                old(world)@,
                role,
            ),
        count_role(old(world)@, Role::Player) > 0 ==> {
            &&& made == Ok::<Option<EntityId>, StoreError>(None)
            &&& final(world)@ == old(world)@
            &&& final(world).next_id() == old(world).next_id()
        },
        count_role(old(world)@, Role::Player) == 0 && old(world).next_id() == u64::MAX ==> {
            &&& made == Err::<Option<EntityId>, StoreError>(StoreError::IdsExhausted)
            &&& final(world)@ == old(world)@
            &&& final(world).next_id() == old(world).next_id()
        },
        count_role(old(world)@, Role::Player) == 0 && old(world).next_id() < u64::MAX ==> {
            &&& made == Ok::<Option<EntityId>, StoreError>(Some(EntityId(old(world).next_id())))
            &&& final(world)@ == old(world)@.push(
                player_row(EntityId(old(world).next_id()), *config),
            )
            &&& final(world).next_id() == old(world).next_id() + 1
        },
{
    let players = world.query(&CapabilitySet::with_role(Role::Player));
    if players.len() > 0 {
        return Ok(None);
    }
    let lower: i64 = -((config.win_size.h / 2) as i64);
    let half: u64 = scaled(config.player_size.half_height, config.sprite_scale) / 1000;
    let y: i64 = lower + half as i64 + config.player_lift as i64;
    let template = Row {
        id: EntityId(0),
        position: Some(Position { x: 0, y, depth: config.depth, scale: config.sprite_scale }),
        velocity: Some(Velocity { x: 0, y: 0 }),
        movable: Some(Movable { auto_despawn: false, carry_x: 0, carry_y: 0 }),
        size: Some(config.player_size),
        role: Some(Role::Player),
        request: None,
        timer: None,
    };
    proof {
        assert forall|role: Role| true implies count_role(
            old(world)@.push(template.with_id(EntityId(old(world).next_id()))),
            role,
        ) == count_role(old(world)@, role) + (if role == Role::Player {
            1nat
        } else {
            0nat
        }) by {
            lemma_count_push(
                old(world)@,
                template.with_id(EntityId(old(world).next_id())),
                role,
            );
        }
    }
    match world.spawn(template) {
        Ok(id) => Ok(Some(id)),
        Err(e) => Err(StoreError::IdsExhausted),
    }
}

/// Sets the velocity of the player along x from the keys held: left, else
/// right, else none. Does nothing unless exactly one player has a velocity.
pub fn player_keyboard_event_system(world: &mut World, left: bool, right: bool)
    requires
        old(world).wf(),
    ensures
        final(world).wf(),
        final(world).next_id() == old(world).next_id(),
        final(world)@ == after_steering(old(world)@, left, right),
        forall|id: EntityId| old(world).retired(id) ==> final(world).retired(id),
{
    let held = world.query(
        &CapabilitySet {
            position: false,
            velocity: true,
            movable: false,
            size: false,
            request: false,
            timer: false,
            role: Some(Role::Player),
        },
    );
    if held.len() == 1 {
        let player = held[0];
        let along: i32 = if left {
            -1000
        } else if right {
            1000
        } else {
            0
        };
        let up: i32 = match player.velocity {
            Some(v) => v.y,
            None => 0,
        };
        proof {
            let i = lemma_filtered_row(world@, matching(helm_caps()), 0);
            lemma_slot_unique(world@, i);
        }
        let done = world.attach(player.id, Component::Velocity(Velocity { x: along, y: up }));
    }
}

/// Fires the lasers of the player. When the fire key has just gone down and
/// exactly one player has a place, two lasers are created, one to each side
/// of the player; they fly upwards and are removed when they leave the
/// arena. Otherwise nothing happens. Returns the handles of the lasers.
///
/// Nothing changes where the store has not two handles left.
pub fn player_fire_system(world: &mut World, just_pressed: bool, config: &Config) -> (fired: Result<
    Option<(EntityId, EntityId)>,
    StoreError,
>)
    requires
        old(world).wf(),
    ensures
        final(world).wf(),
        forall|id: EntityId| old(world).retired(id) ==> final(world).retired(id),
        forall|role: Role|
            role != Role::Laser(Owner::FromPlayer) ==> count_role(final(world)@, role)
                == count_role(old(world)@, role),
        !fires(old(world)@, just_pressed) ==> {
            &&& fired == Ok::<Option<(EntityId, EntityId)>, StoreError>(None)
            &&& final(world)@ == old(world)@
            &&& final(world).next_id() == old(world).next_id()
        },
        fires(old(world)@, just_pressed) && old(world).next_id() + 2 > u64::MAX ==> {
            &&& fired == Err::<Option<(EntityId, EntityId)>, StoreError>(StoreError::IdsExhausted)
            &&& final(world)@ == old(world)@
            &&& final(world).next_id() == old(world).next_id()
        },
        fires(old(world)@, just_pressed) && old(world).next_id() + 2 <= u64::MAX ==> {
            &&& fired == Ok::<Option<(EntityId, EntityId)>, StoreError>(
                Some(
                    (
                        EntityId(old(world).next_id()),
                        EntityId((old(world).next_id() + 1) as u64),
                    ),
                ),
            )
            &&& final(world)@ == after_fire(old(world)@, old(world).next_id() as int, *config)
            &&& final(world).next_id() == old(world).next_id() + 2
        },
{
    if !just_pressed {
        return Ok(None);
    }
    let pilots = world.query(
        &CapabilitySet {
            position: true,
            velocity: false,
            movable: false,
            size: false,
            request: false,
            timer: false,
            role: Some(Role::Player),
        },
    );
    if pilots.len() != 1 {
        return Ok(None);
    }
    if world.spare_ids() < 2 {
        return Err(StoreError::IdsExhausted);
    }
    proof {
        world@.lemma_filter_pred(matching(pilot_caps()), 0);
    }
    let at = match pilots[0].position {
        Some(p) => p,
        None => Position { x: 0, y: 0, depth: 0, scale: 0 },
    };
    let y = saturate(at.y as i128 + config.laser_offset_y as i128);
    let right = saturate(at.x as i128 + config.laser_offset_x as i128);
    let left = saturate(at.x as i128 - config.laser_offset_x as i128);
    let template = Row {
        id: EntityId(0),
        position: Some(
            Position { x: right, y, depth: config.depth, scale: config.sprite_scale },
        ),
        velocity: Some(Velocity { x: 0, y: 1000 }),
        movable: Some(Movable { auto_despawn: true, carry_x: 0, carry_y: 0 }),
        size: Some(config.laser_size),
        role: Some(Role::Laser(Owner::FromPlayer)),
        request: None,
        timer: None,
    };
    let ghost first = world.next_id();
    let ghost row0 = laser_row(EntityId(first), right, y, *config);
    let ghost row1 = laser_row(EntityId((first + 1) as u64), left, y, *config);
    proof {
        assert forall|role: Role| role != Role::Laser(Owner::FromPlayer) implies count_role(
            old(world)@.push(row0).push(row1),
            role,
        ) == count_role(old(world)@, role) by {
            lemma_count_push(old(world)@, row0, role);
            lemma_count_push(old(world)@.push(row0), row1, role);
        }
    }
    let a = world.spawn(template);
    let b = world.spawn(
        Row {
            position: Some(
                Position { x: left, y, depth: config.depth, scale: config.sprite_scale },
            ),
            ..template
        },
    );
    match (a, b) {
        (Ok(first_id), Ok(second_id)) => Ok(Some((first_id, second_id))),
        _ => Err(StoreError::IdsExhausted),
    }
}

} // verus!
