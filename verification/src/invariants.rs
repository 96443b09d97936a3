//! What every stage keeps: the number of enemies and of players, and the
//! make of an enemy.

use vstd::prelude::*;
use crate::collision::{
    after_hits, destroyed, enemy_caps, hits_in, laser_caps, outside, requests, resolve_hits,
};
use crate::components::{Owner, Role, Row};
use crate::config::Config;
use crate::explosion::{
    after_animation, after_materialize, asking, bursts, frame_step, glowing, settled,
};
use crate::movement::{after_movement, stays, step};
use crate::player::{after_fire, after_steering, helm_caps};
use crate::rows::{
    ascending, count_role, lemma_count_add, lemma_count_filter, lemma_count_none,
    lemma_count_push, lemma_count_same_roles, lemma_filtered_row, lemma_slot_unique, matching,
    slot,
};

verus! {

/// No enemy is marked movable, and none asks for an explosion: the stages
/// that move entities and that answer requests leave the enemies alone.
pub open spec fn calm(rows: Seq<Row>) -> bool {
    forall|i: int|
        0 <= i < rows.len() && (#[trigger] rows[i]).is_a(Role::Enemy) ==> rows[i].movable is None
            && rows[i].request is None
}

/// No row asks for an explosion.
pub open spec fn quiet(rows: Seq<Row>) -> bool {
    forall|i: int| 0 <= i < rows.len() ==> (#[trigger] rows[i]).request is None
}

/// Calm rows stay calm when a row is added that is no enemy, or is an enemy
/// that is not movable and asks for nothing.
pub proof fn lemma_push_calm(rows: Seq<Row>, row: Row)
    requires
        calm(rows),
        row.is_a(Role::Enemy) ==> row.movable is None && row.request is None,
    ensures
        calm(rows.push(row)),
{
    let after = rows.push(row);
    assert forall|i: int| 0 <= i < after.len() && (#[trigger] after[i]).is_a(
        Role::Enemy,
    ) implies after[i].movable is None && after[i].request is None by {
        if i < rows.len() {
            assert(after[i] == rows[i]);
        }
    }
}

/// Filtering keeps the enemies calm.
pub proof fn lemma_filter_calm(rows: Seq<Row>, kept: spec_fn(Row) -> bool)
    requires
        calm(rows),
    ensures
        calm(rows.filter(kept)),
{
    let after = rows.filter(kept);
    assert forall|k: int| 0 <= k < after.len() && (#[trigger] after[k]).is_a(
        Role::Enemy,
    ) implies after[k].movable is None && after[k].request is None by {
        let i = lemma_filtered_row(rows, kept, k);
    }
}

/// Steering changes no count and keeps the enemies calm.
pub proof fn lemma_steering_keeps(rows: Seq<Row>, left: bool, right: bool)
    requires
        ascending(rows),
    ensures
        after_steering(rows, left, right).len() == rows.len(),
        forall|role: Role|
            count_role(after_steering(rows, left, right), role) == count_role(rows, role),
        calm(rows) ==> calm(after_steering(rows, left, right)),
{
    let after = after_steering(rows, left, right);
    let held = rows.filter(matching(helm_caps()));
    if held.len() == 1 {
        let i = lemma_filtered_row(rows, matching(helm_caps()), 0);
        lemma_slot_unique(rows, i);
        assert(slot(rows, held[0].id) == i);
        assert forall|k: int| 0 <= k < rows.len() implies (#[trigger] after[k]).role
            == rows[k].role by {}
        assert forall|role: Role| count_role(after, role) == count_role(rows, role) by {
            lemma_count_same_roles(after, rows, role);
        }
        if calm(rows) {
            assert forall|k: int| 0 <= k < after.len() && (#[trigger] after[k]).is_a(
                Role::Enemy,
            ) implies after[k].movable is None && after[k].request is None by {
                assert(rows[k].is_a(Role::Enemy));
            }
        }
    }
}

/// Firing adds two rows, changes the count of no role but that of the
/// player's lasers, and keeps the enemies calm.
pub proof fn lemma_fire_keeps(rows: Seq<Row>, next_id: int, config: Config)
    ensures
        after_fire(rows, next_id, config).len() == rows.len() + 2,
        after_fire(rows, next_id, config).take(rows.len() as int) == rows,
        count_role(after_fire(rows, next_id, config), Role::Laser(Owner::FromPlayer))
            == count_role(rows, Role::Laser(Owner::FromPlayer)) + 2,
        forall|role: Role|
            role != Role::Laser(Owner::FromPlayer) ==> count_role(
                after_fire(rows, next_id, config),
                role,
            ) == count_role(rows, role),
        calm(rows) ==> calm(after_fire(rows, next_id, config)),
{
    let after = after_fire(rows, next_id, config);
    let first = after[rows.len() as int];
    let second = after[rows.len() as int + 1];
    assert(after =~= rows.push(first).push(second));
    assert(after.take(rows.len() as int) =~= rows);
    assert forall|role: Role| true implies count_role(after, role) == count_role(rows, role) + (
    if role == Role::Laser(Owner::FromPlayer) {
        2nat
    } else {
        0nat
    }) by {
        lemma_count_push(rows, first, role);
        lemma_count_push(rows.push(first), second, role);
    }
    if calm(rows) {
        lemma_push_calm(rows, first);
        lemma_push_calm(rows.push(first), second);
    }
}

/// Movement adds no row and no player, and where the enemies are calm it
/// removes none of them.
pub proof fn lemma_movement_keeps(rows: Seq<Row>, config: Config)
    ensures
        after_movement(rows, config).len() <= rows.len(),
        count_role(after_movement(rows, config), Role::Player) <= count_role(rows, Role::Player),
        calm(rows) ==> calm(after_movement(rows, config)) && count_role(
            after_movement(rows, config),
            Role::Enemy,
        ) == count_role(rows, Role::Enemy),
{
    let stepped = rows.map_values(step(config));
    stepped.lemma_filter_len(stays(config));
    assert forall|k: int| 0 <= k < rows.len() implies (#[trigger] stepped[k]).role
        == rows[k].role by {}
    lemma_count_same_roles(stepped, rows, Role::Player);
    lemma_count_same_roles(stepped, rows, Role::Enemy);
    lemma_count_filter(stepped, stays(config), Role::Player);
    lemma_count_filter(stepped, stays(config), Role::Enemy);
    if calm(rows) {
        assert forall|k: int| 0 <= k < stepped.len() && (#[trigger] stepped[k]).is_a(
            Role::Enemy,
        ) implies stepped[k].movable is None && stepped[k].request is None && stays(config)(
            stepped[k],
        ) by {
            assert(rows[k].is_a(Role::Enemy));
        }
        lemma_filter_calm(stepped, stays(config));
    }
}

/// There are no more hits than lasers.
pub proof fn lemma_hits_len(lasers: Seq<Row>, enemies: Seq<Row>, n: int)
    requires
        0 <= n,
    ensures
        resolve_hits(lasers, enemies, n).len() <= n,
    decreases n,
{
    if n > 0 {
        lemma_hits_len(lasers, enemies, n - 1);
    }
}

/// The collisions add no player and at most one row for each hit, there are
/// no more hits than rows, and the enemies stay calm.
pub proof fn lemma_hits_keep(rows: Seq<Row>, next_id: int)
    ensures
        hits_in(rows).len() <= rows.len(),
        after_hits(rows, next_id, hits_in(rows)).len() <= rows.len() + hits_in(rows).len(),
        count_role(after_hits(rows, next_id, hits_in(rows)), Role::Player) <= count_role(
            rows,
            Role::Player,
        ),
        calm(rows) ==> calm(after_hits(rows, next_id, hits_in(rows))),
{
    let hits = hits_in(rows);
    let lasers = rows.filter(matching(laser_caps()));
    rows.lemma_filter_len(matching(laser_caps()));
    lemma_hits_len(lasers, rows.filter(matching(enemy_caps())), lasers.len() as int);
    let kept = rows.filter(outside(destroyed(hits)));
    let asked = requests(hits, next_id);
    rows.lemma_filter_len(outside(destroyed(hits)));
    lemma_count_filter(rows, outside(destroyed(hits)), Role::Player);
    lemma_count_add(kept, asked, Role::Player);
    lemma_count_none(asked, Role::Player);
    if calm(rows) {
        lemma_filter_calm(rows, outside(destroyed(hits)));
        let after = kept + asked;
        assert forall|k: int| 0 <= k < after.len() && (#[trigger] after[k]).is_a(
            Role::Enemy,
        ) implies after[k].movable is None && after[k].request is None by {
            if k < kept.len() {
                assert(after[k] == kept[k]);
            } else {
                assert(after[k] == asked[k - kept.len()]);
            }
        }
    }
}

/// Answering the requests leaves no request, adds no player, and where the
/// enemies are calm it removes none of them.
pub proof fn lemma_materialize_keeps(rows: Seq<Row>, next_id: int, config: Config)
    ensures
        rows.filter(asking()).len() <= rows.len(),
        quiet(after_materialize(rows, next_id, config)),
        count_role(after_materialize(rows, next_id, config), Role::Player) <= count_role(
            rows,
            Role::Player,
        ),
        calm(rows) ==> calm(after_materialize(rows, next_id, config)) && count_role(
            after_materialize(rows, next_id, config),
            Role::Enemy,
        ) == count_role(rows, Role::Enemy),
{
    let kept = rows.filter(settled());
    let made = bursts(rows.filter(asking()), next_id, config);
    let after = kept + made;
    rows.lemma_filter_len(asking());
    lemma_count_filter(rows, settled(), Role::Player);
    lemma_count_filter(rows, settled(), Role::Enemy);
    lemma_count_add(kept, made, Role::Player);
    lemma_count_add(kept, made, Role::Enemy);
    lemma_count_none(made, Role::Player);
    lemma_count_none(made, Role::Enemy);
    assert forall|k: int| 0 <= k < after.len() implies (#[trigger] after[k]).request is None by {
        if k < kept.len() {
            rows.lemma_filter_pred(settled(), k);
            assert(after[k] == kept[k]);
        } else {
            assert(after[k] == made[k - kept.len()]);
        }
    }
    if calm(rows) {
        lemma_filter_calm(rows, settled());
        assert forall|k: int| 0 <= k < after.len() && (#[trigger] after[k]).is_a(
            Role::Enemy,
        ) implies after[k].movable is None && after[k].request is None by {
            if k < kept.len() {
                assert(after[k] == kept[k]);
            } else {
                assert(after[k] == made[k - kept.len()]);
            }
        }
    }
}

/// The animation adds no player, no request and no enemy, and removes no
/// enemy.
pub proof fn lemma_animation_keeps(rows: Seq<Row>, dt: u64, config: Config)
    ensures
        count_role(after_animation(rows, dt, config), Role::Player) <= count_role(
            rows,
            Role::Player,
        ),
        count_role(after_animation(rows, dt, config), Role::Enemy) == count_role(
            rows,
            Role::Enemy,
        ),
        calm(rows) ==> calm(after_animation(rows, dt, config)),
        quiet(rows) ==> quiet(after_animation(rows, dt, config)),
{
    let stepped = rows.map_values(frame_step(dt));
    let after = stepped.filter(glowing(config));
    assert forall|k: int| 0 <= k < rows.len() implies (#[trigger] stepped[k]).role
        == rows[k].role by {}
    lemma_count_same_roles(stepped, rows, Role::Player);
    lemma_count_same_roles(stepped, rows, Role::Enemy);
    lemma_count_filter(stepped, glowing(config), Role::Player);
    lemma_count_filter(stepped, glowing(config), Role::Enemy);
    if calm(rows) {
        assert forall|k: int| 0 <= k < stepped.len() && (#[trigger] stepped[k]).is_a(
            Role::Enemy,
        ) implies stepped[k].movable is None && stepped[k].request is None by {
            assert(rows[k].is_a(Role::Enemy));
        }
        lemma_filter_calm(stepped, glowing(config));
    }
    if quiet(rows) {
        assert forall|k: int| 0 <= k < after.len() implies (#[trigger] after[k]).request
            is None by {
            let i = lemma_filtered_row(stepped, glowing(config), k);
            assert(stepped[i].request == rows[i].request);
        }
    }
}

} // verus!
