//! The collision stage: every laser of the player against every enemy.
//!
//! Lasers are taken in the order of their creation, and each one destroys
//! the first enemy, in the order of creation, whose box overlaps its own and
//! that no earlier laser has destroyed. Each box is scaled by the scale of
//! its own entity.

use vstd::prelude::*;
use crate::components::{
    CapabilitySet, EntityId, ExplosionRequest, Owner, Position, Role, Row, SpriteSize, UNIT,
};
use crate::fixed::{reach, scaled};
use crate::despawned::{
    despawned_contains, despawned_ids, despawned_insert, despawned_new, Despawned,
};
use crate::rows::{
    ascending, count_role, lemma_count_add, lemma_count_none, lemma_filter_all, lemma_filter_same,
    lemma_filtered_row, lemma_slot_unique, live, matching, slot, with_role,
};
use crate::world::{fresh_rows, spared, CommandBuffer, StoreError, World};

verus! {

/// How many enemies are alive.
#[derive(Clone, Copy, Debug, PartialEq, Eq)]
pub struct EnemyCount(pub u32);

/// One laser that met one enemy.
#[derive(Clone, Copy, Debug, PartialEq, Eq)]
pub struct Hit {
    pub laser: EntityId,
    pub enemy: EntityId,
    /// Where the enemy was: the place of the explosion.
    pub at: ExplosionRequest,
}

/// What the stage asks of a laser: it is the player's, and has a place and
/// a box.
pub open spec fn laser_caps() -> CapabilitySet {
    CapabilitySet {
        position: true,
        size: true,
        role: Some(Role::Laser(Owner::FromPlayer)),
        ..CapabilitySet::nothing()
    }
}

/// What the stage asks of an enemy: the role, a place and a box.
pub open spec fn enemy_caps() -> CapabilitySet {
    CapabilitySet { position: true, size: true, role: Some(Role::Enemy), ..CapabilitySet::nothing() }
}

/// Two centres on one axis lie closer than the sum of two reaches.
pub open spec fn within(c1: i64, c2: i64, reaches: int) -> bool {
    (if c1 >= c2 {
        c1 - c2
    } else {
        c2 - c1
    }) * UNIT < reaches
}

/// Two boxes overlap: on each axis the centres are closer than the scaled
/// half-extents together.
pub open spec fn overlaps(p1: Position, s1: SpriteSize, p2: Position, s2: SpriteSize) -> bool {
    &&& within(p1.x, p2.x, reach(s1.half_width, p1.scale) + reach(s2.half_width, p2.scale))
    &&& within(p1.y, p2.y, reach(s1.half_height, p1.scale) + reach(s2.half_height, p2.scale))
}

/// Two rows have places and boxes, and the boxes overlap.
pub open spec fn rows_overlap(a: Row, b: Row) -> bool {
    match (a.position, a.size, b.position, b.size) {
        (Some(p1), Some(s1), Some(p2), Some(s2)) => overlaps(p1, s1, p2, s2),
        _ => false,
    }
}

/// The handle numbers that a run of hits has destroyed: the laser and the
/// enemy of each.
pub open spec fn destroyed(hits: Seq<Hit>) -> Set<u64>
    decreases hits.len(),
{
    if hits.len() == 0 {
        Set::empty()
    } else {
        destroyed(hits.drop_last()).insert(hits.last().enemy.0).insert(hits.last().laser.0)
    }
}

/// The first enemy from place `from` on that is not gone and overlaps
/// `laser`.
pub open spec fn first_target(laser: Row, enemies: Seq<Row>, gone: Set<u64>, from: int) -> Option<
    int,
>
    decreases enemies.len() - from,
{
    if from < 0 || from >= enemies.len() {
        None
    } else if !gone.contains(enemies[from].id.0) && rows_overlap(laser, enemies[from]) {
        Some(from)
    } else {
        first_target(laser, enemies, gone, from + 1)
    }
}

/// The hit of `laser` on `enemy`.
pub open spec fn hit_of(laser: Row, enemy: Row) -> Hit {
    Hit {
        laser: laser.id,
        enemy: enemy.id,
        at: match enemy.position {
            Some(p) => ExplosionRequest { x: p.x, y: p.y, depth: p.depth },
            None => ExplosionRequest { x: 0, y: 0, depth: 0 },
        },
    }
}

/// The hits of the first `n` lasers, in the order in which they occur.
pub open spec fn resolve_hits(lasers: Seq<Row>, enemies: Seq<Row>, n: int) -> Seq<Hit>
    decreases n,
{
    if n <= 0 {
        Seq::empty()
    } else {
        let before = resolve_hits(lasers, enemies, n - 1);
        let laser = lasers[n - 1];
        let gone = destroyed(before);
        if gone.contains(laser.id.0) {
            before
        } else {
            match first_target(laser, enemies, gone, 0) {
                Some(j) => before.push(hit_of(laser, enemies[j])),
                None => before,
            }
        }
    }
}

/// The hits that occur among the rows of a store.
pub open spec fn hits_in(rows: Seq<Row>) -> Seq<Hit> {
    let lasers = rows.filter(matching(laser_caps()));
    resolve_hits(lasers, rows.filter(matching(enemy_caps())), lasers.len() as int)
}

/// The rows whose handle number is not in `gone`.
pub open spec fn outside(gone: Set<u64>) -> spec_fn(Row) -> bool {
    |row: Row| !gone.contains(row.id.0)
}

/// The row that asks for an explosion.
pub open spec fn request_row(id: EntityId, at: ExplosionRequest) -> Row {
    Row { request: Some(at), ..Row::bare(id) }
}

/// One request for each hit, under handles counted up from `next_id`.
pub open spec fn requests(hits: Seq<Hit>, next_id: int) -> Seq<Row> {
    Seq::new(hits.len(), |i: int| request_row(EntityId((next_id + i) as u64), hits[i].at))
}

/// The rows after the hits: lasers and enemies that were hit are gone, and
/// a request stands at the end for each hit.
pub open spec fn after_hits(rows: Seq<Row>, next_id: int, hits: Seq<Hit>) -> Seq<Row> {
    rows.filter(outside(destroyed(hits))) + requests(hits, next_id)
}

/// No handle occurs twice among the hits: no laser and no enemy occurs in
/// two hits, and no handle is a laser in one hit and an enemy in another.
pub open spec fn distinct(hits: Seq<Hit>) -> bool {
    &&& forall|i: int, j: int|
        0 <= i < j < hits.len() ==> (#[trigger] hits[i]).laser != (#[trigger] hits[j]).laser
            && hits[i].enemy != hits[j].enemy
    &&& forall|i: int, j: int|
        0 <= i < hits.len() && 0 <= j < hits.len() ==> (#[trigger] hits[i]).laser != (
        #[trigger] hits[j]).enemy
}

/// What a run of hits destroys once one more hit is added.
pub proof fn lemma_destroyed_push(hits: Seq<Hit>, hit: Hit)
    ensures
        destroyed(hits.push(hit)) == destroyed(hits).insert(hit.enemy.0).insert(hit.laser.0),
{
    assert(hits.push(hit).drop_last() =~= hits);
}

/// The target found is the first enemy at or after `from` that is not gone
/// and overlaps the laser; where none is found, there is none.
pub proof fn lemma_first_target_is_least(laser: Row, enemies: Seq<Row>, gone: Set<u64>, from: int)
    requires
        0 <= from,
    ensures
        match first_target(laser, enemies, gone, from) {
            Some(j) => from <= j < enemies.len() && !gone.contains(enemies[j].id.0) && rows_overlap(
                laser,
                enemies[j],
            ) && forall|k: int|
                from <= k < j ==> gone.contains((#[trigger] enemies[k]).id.0) || !rows_overlap(
                    laser,
                    enemies[k],
                ),
            None => forall|k: int|
                from <= k < enemies.len() ==> gone.contains((#[trigger] enemies[k]).id.0)
                    || !rows_overlap(laser, enemies[k]),
        },
    decreases enemies.len() - from,
{
    if from < enemies.len() {
        if !gone.contains(enemies[from].id.0) && rows_overlap(laser, enemies[from]) {
        } else {
            lemma_first_target_is_least(laser, enemies, gone, from + 1);
        }
    }
}

/// Removing one more handle from the rows that are kept takes one from the
/// count of a role exactly where the handle was kept till then and its row
/// has the role.
pub proof fn lemma_count_without(rows: Seq<Row>, gone: Set<u64>, x: u64, j: int, role: Role)
    requires
        ascending(rows),
        0 <= j < rows.len(),
        rows[j].id.0 == x,
    ensures
        count_role(rows.filter(outside(gone.insert(x))), role) + (if !gone.contains(x)
            && rows[j].is_a(role) {
            1nat
        } else {
            0nat
        }) == count_role(rows.filter(outside(gone)), role),
    decreases rows.len(),
{
    let p = outside(gone);
    let q = outside(gone.insert(x));
    let c = with_role(role);
    if gone.contains(x) {
        assert(gone.insert(x) =~= gone);
    } else {
        let front = rows.drop_last();
        let last = rows.last();
        assert(rows =~= front.push(last));
        front.lemma_filter_push(last, p);
        front.lemma_filter_push(last, q);
        front.filter(p).lemma_filter_push(last, c);
        front.filter(q).lemma_filter_push(last, c);
        assert forall|a: int, b: int| 0 <= a < b < front.len() implies (#[trigger] front[a]).id.0 < (
        #[trigger] front[b]).id.0 by {
            assert(front[a] == rows[a] && front[b] == rows[b]);
        }
        if j == rows.len() - 1 {
            assert forall|i: int| 0 <= i < front.len() implies p(#[trigger] front[i]) == q(
                front[i],
            ) by {
                assert(front[i] == rows[i]);
                assert(rows[i].id.0 < rows[j].id.0);
            }
            lemma_filter_same(front, p, q);
        } else {
            assert(rows[j].id.0 < rows[rows.len() - 1].id.0);
            assert(front[j] == rows[j]);
            lemma_count_without(front, gone, x, j, role);
        }
    }
}

/// Whether two centres on one axis lie closer than two scaled half-extents
/// together.
fn axis_within(c1: i64, e1: u32, k1: u32, c2: i64, e2: u32, k2: u32) -> (yes: bool)
    ensures
        yes == within(c1, c2, reach(e1, k1) + reach(e2, k2)),
{
    let gap: i128 = if c1 >= c2 {
        c1 as i128 - c2 as i128
    } else {
        c2 as i128 - c1 as i128
    };
    let r1: i128 = scaled(e1, k1) as i128;
    let r2: i128 = scaled(e2, k2) as i128;
    gap * 1000 < r1 + r2
}

/// Whether the boxes of two rows overlap.
pub fn boxes_overlap(a: &Row, b: &Row) -> (yes: bool)
    ensures
        yes == rows_overlap(*a, *b),
{
    match (a.position, a.size, b.position, b.size) {
        (Some(p1), Some(s1), Some(p2), Some(s2)) => {
            axis_within(p1.x, s1.half_width, p1.scale, p2.x, s2.half_width, p2.scale)
                && axis_within(p1.y, s1.half_height, p1.scale, p2.y, s2.half_height, p2.scale)
        },
        _ => false,
    }
}

/// The first enemy that is not among the despawned and overlaps `laser`.
fn find_target(laser: &Row, enemies: &Vec<Row>, despawned: &Despawned) -> (target: Option<usize>)
    ensures
        match target {
            Some(j) => first_target(*laser, enemies@, despawned_ids(*despawned), 0) == Some(
                j as int,
            ) && j < enemies@.len(),
            None => first_target(*laser, enemies@, despawned_ids(*despawned), 0) is None,
        },
{
    let ghost gone = despawned_ids(*despawned);
    let mut b: usize = 0;
    while b < enemies.len()
        invariant
            b <= enemies@.len(),
            gone == despawned_ids(*despawned),
            first_target(*laser, enemies@, gone, 0) == first_target(*laser, enemies@, gone, b as int),
        decreases enemies@.len() - b,
    {
        let enemy = enemies[b];
        if !despawned_contains(despawned, enemy.id.0) && boxes_overlap(laser, &enemy) {
            return Some(b);
        }
        b += 1;
    }
    None
}

/// The explosion request for an enemy that was hit.
fn request_at(enemy: &Row) -> (at: ExplosionRequest)
    ensures
        at == hit_of(*enemy, *enemy).at,
{
    match enemy.position {
        Some(p) => ExplosionRequest { x: p.x, y: p.y, depth: p.depth },
        None => ExplosionRequest { x: 0, y: 0, depth: 0 },
    }
}

/// The collision stage. Each laser of the player, in the order of creation,
/// destroys the first enemy that overlaps it and that is still there, and is
/// destroyed with it; a request for an explosion is created where the enemy
/// was, and the count of enemies goes down by one. Returns the hits.
///
/// Nothing changes where the store has not a handle left for each request.
pub fn player_laser_hit_enemy_system(world: &mut World, enemy_count: &mut EnemyCount) -> (outcome:
    Result<Vec<Hit>, StoreError>)
    requires
        old(world).wf(),
        old(enemy_count).0 >= count_role(old(world)@, Role::Enemy),
    ensures
        final(world).wf(),
        final(enemy_count).0 - count_role(final(world)@, Role::Enemy) == old(enemy_count).0
            - count_role(old(world)@, Role::Enemy),
        old(enemy_count).0 == count_role(old(world)@, Role::Enemy) ==> final(enemy_count).0
            == count_role(final(world)@, Role::Enemy),
        outcome is Ok ==> distinct(outcome->Ok_0@),
        forall|id: EntityId| old(world).retired(id) ==> final(world).retired(id),
        old(world).next_id() + hits_in(old(world)@).len() <= u64::MAX ==> {
            &&& outcome is Ok
            &&& outcome->Ok_0@ == hits_in(old(world)@)
            &&& final(world)@ == after_hits(
                old(world)@,
                old(world).next_id() as int,
                hits_in(old(world)@),
            )
            &&& final(world).next_id() == old(world).next_id() + hits_in(old(world)@).len()
            &&& final(enemy_count).0 == old(enemy_count).0 - hits_in(old(world)@).len()
        },
        old(world).next_id() + hits_in(old(world)@).len() > u64::MAX ==> {
            &&& outcome == Err::<Vec<Hit>, StoreError>(StoreError::IdsExhausted)
            &&& final(world)@ == old(world)@
            &&& final(world).next_id() == old(world).next_id()
            &&& *final(enemy_count) == *old(enemy_count)
        },
{
    let lasers = world.query(
        &CapabilitySet {
            position: true,
            velocity: false,
            movable: false,
            size: true,
            request: false,
            timer: false,
            role: Some(Role::Laser(Owner::FromPlayer)),
        },
    );
    let enemies = world.query(
        &CapabilitySet {
            position: true,
            velocity: false,
            movable: false,
            size: true,
            request: false,
            timer: false,
            role: Some(Role::Enemy),
        },
    );
    let ghost rows = world@;
    let mut despawned = despawned_new();
    let mut buffer = CommandBuffer::new();
    let mut hits: Vec<Hit> = Vec::new();
    let mut count: u32 = enemy_count.0;
    let mut a: usize = 0;
    proof {
        assert(rows.filter(outside(destroyed(hits@))) == rows) by {
            assert forall|i: int| 0 <= i < rows.len() implies outside(destroyed(hits@))(
                #[trigger] rows[i],
            ) == matching(CapabilitySet::nothing())(rows[i]) by {}
            lemma_filter_same(rows, outside(destroyed(hits@)), matching(CapabilitySet::nothing()));
            lemma_filter_all(rows);
        }
    }
    while a < lasers.len()
        invariant
            a <= lasers@.len(),
            ascending(rows),
            lasers@ == rows.filter(matching(laser_caps())),
            enemies@ == rows.filter(matching(enemy_caps())),
            hits@ == resolve_hits(lasers@, enemies@, a as int),
            despawned_ids(despawned) == destroyed(hits@),
            forall|id: EntityId| buffer.destroy@.contains(id) <==> destroyed(hits@).contains(id.0),
            buffer.spawn@.len() == hits@.len(),
            forall|k: int|
                0 <= k < hits@.len() ==> #[trigger] buffer.spawn@[k] == request_row(
                    EntityId(0),
                    hits@[k].at,
                ),
            count + hits@.len() == enemy_count.0,
            count - count_role(rows.filter(outside(destroyed(hits@))), Role::Enemy)
                == enemy_count.0 - count_role(rows, Role::Enemy),
            enemy_count.0 >= count_role(rows, Role::Enemy),
        decreases lasers@.len() - a,
    {
        let laser = lasers[a];
        if !despawned_contains(&despawned, laser.id.0) {
            match find_target(&laser, &enemies, &despawned) {
                Some(b) => {
                    let enemy = enemies[b];
                    let hit = Hit { laser: laser.id, enemy: enemy.id, at: request_at(&enemy) };
                    proof {
                        let gone = destroyed(hits@);
                        lemma_destroyed_push(hits@, hit);
                        lemma_first_target_is_least(laser, enemies@, gone, 0);
                        let le = lemma_filtered_row(rows, matching(enemy_caps()), b as int);
                        let ll = lemma_filtered_row(rows, matching(laser_caps()), a as int);
                        lemma_count_without(rows, gone, enemy.id.0, le, Role::Enemy);
                        lemma_count_without(
                            rows,
                            gone.insert(enemy.id.0),
                            laser.id.0,
                            ll,
                            Role::Enemy,
                        );
                        assert(count >= 1);
                    }
                    let ghost listed = buffer.destroy@;
                    buffer.destroy.push(enemy.id);
                    despawned_insert(&mut despawned, enemy.id.0);
                    count = count - 1;
                    buffer.destroy.push(laser.id);
                    despawned_insert(&mut despawned, laser.id.0);
                    buffer.spawn.push(
                        Row {
                            id: EntityId(0),
                            position: None,
                            velocity: None,
                            movable: None,
                            size: None,
                            role: None,
                            request: Some(hit.at),
                            timer: None,
                        },
                    );
                    hits.push(hit);
                    proof {
                        assert(buffer.destroy@ == listed.push(enemy.id).push(laser.id));
                        assert forall|id: EntityId| buffer.destroy@.contains(id) <==> destroyed(
                            hits@,
                        ).contains(id.0) by {
                            if buffer.destroy@.contains(id) {
                                let k = choose|k: int|
                                    0 <= k < buffer.destroy@.len() && buffer.destroy@[k] == id;
                                if k < listed.len() {
                                    assert(listed[k] == id);
                                    assert(listed.contains(id));
                                }
                            }
                            if destroyed(hits@).contains(id.0) {
                                if id.0 == enemy.id.0 {
                                    assert(buffer.destroy@[listed.len() as int] == id);
                                } else if id.0 == laser.id.0 {
                                    assert(buffer.destroy@[listed.len() as int + 1] == id);
                                } else {
                                    assert(listed.contains(id));
                                    let k = choose|k: int| 0 <= k < listed.len() && listed[k] == id;
                                    assert(buffer.destroy@[k] == id);
                                }
                            }
                        }
                    }
                },
                None => {},
            }
        }
        a += 1;
    }
    let ghost first = world.next_id();
    match world.commit(&buffer) {
        Ok(()) => {
            enemy_count.0 = count;
            proof {
                let gone = destroyed(hits@);
                assert(hits@ == hits_in(rows));
                lemma_hits_distinct(rows);
                assert forall|i: int| 0 <= i < rows.len() implies spared(buffer.destroy@)(
                    #[trigger] rows[i],
                ) == outside(gone)(rows[i]) by {}
                lemma_filter_same(rows, spared(buffer.destroy@), outside(gone));
                assert(fresh_rows(buffer.spawn@, first as int) =~= requests(hits@, first as int));
                lemma_count_add(
                    rows.filter(outside(gone)),
                    requests(hits@, first as int),
                    Role::Enemy,
                );
                lemma_count_none(requests(hits@, first as int), Role::Enemy);
            }
            Ok(hits)
        },
        Err(e) => Err(StoreError::IdsExhausted),
    }
}

/// No handle is destroyed twice: among the hits that occur in a store, no
/// laser and no enemy occurs in two hits, no handle is a laser in one hit
/// and an enemy in another, and every hit pairs a live laser of the player
/// with a live enemy whose box overlaps its own.
pub proof fn lemma_hits_distinct(rows: Seq<Row>)
    requires
        ascending(rows),
    ensures
        distinct(hits_in(rows)),
        forall|i: int|
            0 <= i < hits_in(rows).len() ==> {
                let hit = #[trigger] hits_in(rows)[i];
                &&& live(rows, hit.laser)
                &&& live(rows, hit.enemy)
                &&& rows[slot(rows, hit.laser)].is_a(Role::Laser(Owner::FromPlayer))
                &&& rows[slot(rows, hit.enemy)].is_a(Role::Enemy)
                &&& rows_overlap(rows[slot(rows, hit.laser)], rows[slot(rows, hit.enemy)])
            },
{
    let lasers = rows.filter(matching(laser_caps()));
    lemma_hits_sound(rows, lasers.len() as int);
}

/// The statement of `lemma_hits_distinct` for the hits of the first `n`
/// lasers, with what the induction needs besides.
proof fn lemma_hits_sound(rows: Seq<Row>, n: int)
    requires
        ascending(rows),
        0 <= n <= rows.filter(matching(laser_caps())).len(),
    ensures
        ({
            let hits = resolve_hits(
                rows.filter(matching(laser_caps())),
                rows.filter(matching(enemy_caps())),
                n,
            );
            &&& forall|i: int, j: int|
                0 <= i < j < hits.len() ==> (#[trigger] hits[i]).laser != (#[trigger] hits[j]).laser
                    && hits[i].enemy != hits[j].enemy
            &&& forall|i: int, j: int|
                0 <= i < hits.len() && 0 <= j < hits.len() ==> (#[trigger] hits[i]).laser != (
                #[trigger] hits[j]).enemy
            &&& forall|i: int|
                0 <= i < hits.len() ==> {
                    let hit = #[trigger] hits[i];
                    &&& live(rows, hit.laser)
                    &&& live(rows, hit.enemy)
                    &&& rows[slot(rows, hit.laser)].is_a(Role::Laser(Owner::FromPlayer))
                    &&& rows[slot(rows, hit.enemy)].is_a(Role::Enemy)
                    &&& rows_overlap(rows[slot(rows, hit.laser)], rows[slot(rows, hit.enemy)])
                }
            &&& forall|x: u64|
                destroyed(hits).contains(x) <==> exists|i: int|
                    0 <= i < hits.len() && ((#[trigger] hits[i]).laser.0 == x || hits[i].enemy.0
                        == x)
        }),
    decreases n,
{
    let lasers = rows.filter(matching(laser_caps()));
    let enemies = rows.filter(matching(enemy_caps()));
    let hits = resolve_hits(lasers, enemies, n);
    if n > 0 {
        lemma_hits_sound(rows, n - 1);
        let before = resolve_hits(lasers, enemies, n - 1);
        let laser = lasers[n - 1];
        let gone = destroyed(before);
        if !gone.contains(laser.id.0) {
            lemma_first_target_is_least(laser, enemies, gone, 0);
            match first_target(laser, enemies, gone, 0) {
                Some(b) => {
                    let enemy = enemies[b];
                    let hit = hit_of(laser, enemy);
                    assert(hits == before.push(hit));
                    lemma_destroyed_push(before, hit);
                    let le = lemma_filtered_row(rows, matching(enemy_caps()), b);
                    let ll = lemma_filtered_row(rows, matching(laser_caps()), n - 1);
                    lemma_slot_unique(rows, le);
                    lemma_slot_unique(rows, ll);
                    assert(laser.id != enemy.id) by {
                        if laser.id == enemy.id {
                            assert(slot(rows, laser.id) == ll);
                            assert(slot(rows, enemy.id) == le);
                        }
                    }
                    assert forall|i: int| 0 <= i < before.len() implies (#[trigger] hits[i])
                        == before[i] by {}
                    assert forall|x: u64| destroyed(hits).contains(x) <==> exists|i: int|
                        0 <= i < hits.len() && ((#[trigger] hits[i]).laser.0 == x || hits[i].enemy.0
                            == x) by {
                        if destroyed(hits).contains(x) {
                            if x == enemy.id.0 || x == laser.id.0 {
                                assert(hits[before.len() as int] == hit);
                            } else {
                                assert(gone.contains(x));
                                let i = choose|i: int|
                                    0 <= i < before.len() && ((#[trigger] before[i]).laser.0 == x
                                        || before[i].enemy.0 == x);
                                assert(hits[i] == before[i]);
                            }
                        }
                        if exists|i: int|
                            0 <= i < hits.len() && ((#[trigger] hits[i]).laser.0 == x
                                || hits[i].enemy.0 == x) {
                            let i = choose|i: int|
                                0 <= i < hits.len() && ((#[trigger] hits[i]).laser.0 == x
                                    || hits[i].enemy.0 == x);
                            if i < before.len() {
                                assert(hits[i] == before[i]);
                                assert(gone.contains(x));
                            }
                        }
                    }
                    assert forall|i: int, j: int| 0 <= i < j < hits.len() implies (
                    #[trigger] hits[i]).laser != (#[trigger] hits[j]).laser && hits[i].enemy
                        != hits[j].enemy by {
                        if j == before.len() {
                            assert(hits[i] == before[i]);
                            assert(gone.contains(before[i].laser.0));
                            assert(gone.contains(before[i].enemy.0));
                        } else {
                            assert(hits[i] == before[i] && hits[j] == before[j]);
                        }
                    }
                    assert forall|i: int, j: int|
                        0 <= i < hits.len() && 0 <= j < hits.len() implies (
                    #[trigger] hits[i]).laser != (#[trigger] hits[j]).enemy by {
                        if i < before.len() {
                            assert(hits[i] == before[i]);
                            assert(gone.contains(before[i].laser.0));
                        }
                        if j < before.len() {
                            assert(hits[j] == before[j]);
                            assert(gone.contains(before[j].enemy.0));
                        }
                    }
                    assert forall|i: int| 0 <= i < hits.len() implies {
                        let h = #[trigger] hits[i];
                        &&& live(rows, h.laser)
                        &&& live(rows, h.enemy)
                        &&& rows[slot(rows, h.laser)].is_a(Role::Laser(Owner::FromPlayer))
                        &&& rows[slot(rows, h.enemy)].is_a(Role::Enemy)
                        &&& rows_overlap(rows[slot(rows, h.laser)], rows[slot(rows, h.enemy)])
                    } by {
                        if i < before.len() {
                            assert(hits[i] == before[i]);
                        }
                    }
                },
                None => {},
            }
        }
    }
}

} // verus!
