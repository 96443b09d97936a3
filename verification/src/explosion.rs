//! The life of an explosion: a request becomes an animation, the animation
//! goes through its frames, and the entity leaves after the last one.

use vstd::prelude::*;
use vstd::arithmetic::div_mod::{
    lemma_div_is_ordered, lemma_div_multiples_vanish, lemma_fundamental_div_mod,
    lemma_hoist_over_denominator, lemma_mod_bound,
};
use crate::components::{
    CapabilitySet, EntityId, ExplosionRequest, ExplosionTimer, Position, Role, Row, UNIT,
};
use crate::config::Config;
use crate::rows::{
    ascending, below, lemma_filter_ascending, lemma_filtered_row, lemma_slot_unique, live, matching,
    slot,
};
use crate::world::{
    fresh_rows, lemma_commit_no_spawn, lemma_listed_grows, lemma_spared_by_rule, CommandBuffer,
    StoreError, World,
};

verus! {

/// The rows that ask for an explosion.
pub open spec fn asking() -> spec_fn(Row) -> bool {
    matching(CapabilitySet { request: true, ..CapabilitySet::nothing() })
}

/// The rows that ask for none.
pub open spec fn settled() -> spec_fn(Row) -> bool {
    |row: Row| row.request is None
}

/// A clock at its start.
pub open spec fn fresh_timer(frame_duration: u64) -> ExplosionTimer {
    ExplosionTimer { elapsed: 0, frame_duration, frame_index: 0 }
}

/// The row of an explosion that has just begun, at full scale.
pub open spec fn explosion_row(id: EntityId, at: ExplosionRequest, config: Config) -> Row {
    Row {
        id,
        position: Some(Position { x: at.x, y: at.y, depth: at.depth, scale: UNIT }),
        velocity: None,
        movable: None,
        size: None,
        role: Some(Role::Explosion),
        request: None,
        timer: Some(fresh_timer(config.frame_duration)),
    }
}

/// One explosion for each request, in the order of the requests, under
/// handles counted up from `next_id`.
pub open spec fn bursts(asked: Seq<Row>, next_id: int, config: Config) -> Seq<Row> {
    Seq::new(
        asked.len(),
        |i: int| explosion_row(EntityId((next_id + i) as u64), asked[i].request->0, config),
    )
}

/// The rows after the requests have become explosions: the requests are
/// gone, and the explosions stand at the end.
pub open spec fn after_materialize(rows: Seq<Row>, next_id: int, config: Config) -> Seq<Row> {
    rows.filter(settled()) + bursts(rows.filter(asking()), next_id, config)
}

/// The sum of two counts of frames, which stops at the end of its range.
pub open spec fn frames_sum(a: int, b: int) -> u64 {
    if a + b > u64::MAX {
        u64::MAX
    } else {
        (a + b) as u64
    }
}

/// A clock after `dt` more microseconds. The time gathered grows by `dt`;
/// as long as it exceeds the duration of a frame, it gives that duration up
/// and the frame index goes up by one. A duration of zero is exceeded
/// without end by any time gathered: the frame index then goes to the end
/// of its range.
pub open spec fn timer_after(t: ExplosionTimer, dt: int) -> ExplosionTimer {
    let total = t.elapsed + dt;
    if total <= t.frame_duration {
        ExplosionTimer { elapsed: total as u64, ..t }
    } else if t.frame_duration == 0 {
        ExplosionTimer { elapsed: 0, frame_index: u64::MAX, ..t }
    } else {
        let frames = (total - 1) / (t.frame_duration as int);
        ExplosionTimer {
            elapsed: (total - frames * t.frame_duration) as u64,
            frame_index: frames_sum(t.frame_index as int, frames),
            ..t
        }
    }
}

/// Time gathered and frames counted after the time has given up the
/// duration of a frame as often as it exceeded it.
pub open spec fn drained(gathered: int, per: int, frames: int) -> (int, int)
    decreases gathered,
{
    if per > 0 && gathered > per {
        drained(gathered - per, per, frames + 1)
    } else {
        (gathered, frames)
    }
}

/// Whether the animation stage runs a row: it is an explosion with a clock.
pub open spec fn animates(row: Row) -> bool {
    row.is_a(Role::Explosion) && row.timer is Some
}

/// A row after `dt` more microseconds of animation.
pub open spec fn animated(row: Row, dt: u64) -> Row {
    if animates(row) {
        Row { timer: Some(timer_after(row.timer->0, dt as int)), ..row }
    } else {
        row
    }
}

/// Whether an explosion has shown its last frame.
pub open spec fn burnt_out(row: Row, config: Config) -> bool {
    animates(row) && row.timer->0.frame_index >= config.explosion_len
}

/// The animation, row by row.
pub open spec fn frame_step(dt: u64) -> spec_fn(Row) -> Row {
    |row: Row| animated(row, dt)
}

/// The rows that the animation stage does not remove.
pub open spec fn glowing(config: Config) -> spec_fn(Row) -> bool {
    |row: Row| !burnt_out(row, config)
}

/// The rows after the animation stage.
pub open spec fn after_animation(rows: Seq<Row>, dt: u64, config: Config) -> Seq<Row> {
    rows.map_values(frame_step(dt)).filter(glowing(config))
}

/// A clock after some time is the clock that gave up the duration of a frame
/// once for each time that the time gathered exceeded it.
pub proof fn lemma_timer_drains(t: ExplosionTimer, dt: int)
    requires
        0 <= dt,
        t.frame_duration > 0,
    ensures
        ({
            let (gathered, frames) = drained(
                t.elapsed + dt,
                t.frame_duration as int,
                t.frame_index as int,
            );
            &&& timer_after(t, dt).elapsed == gathered
            &&& timer_after(t, dt).frame_index == frames_sum(frames, 0)
            &&& timer_after(t, dt).frame_duration == t.frame_duration
        }),
{
    lemma_drained(t.elapsed + dt, t.frame_duration as int, t.frame_index as int);
    let total = t.elapsed + dt;
    let per = t.frame_duration as int;
    if total > per {
        let frames = (total - 1) / per;
        lemma_fundamental_div_mod(total - 1, per);
        lemma_mod_bound(total - 1, per);
        assert(per * frames == frames * per) by (nonlinear_arith);
    }
}

/// What `drained` comes to, in closed form.
proof fn lemma_drained(gathered: int, per: int, frames: int)
    requires
        0 <= gathered,
        per > 0,
    ensures
        drained(gathered, per, frames) == if gathered <= per {
            (gathered, frames)
        } else {
            (gathered - ((gathered - 1) / per) * per, frames + (gathered - 1) / per)
        },
    decreases gathered,
{
    if gathered > per {
        let rest = gathered - per;
        lemma_drained(rest, per, frames + 1);
        lemma_hoist_over_denominator(rest - 1, 1, per as nat);
        assert((rest - 1) / per + 1 == (rest - 1 + 1 * per) / per);
        assert(rest - 1 + 1 * per == gathered - 1);
        let k = (rest - 1) / per;
        assert((k + 1) * per == k * per + per) by (nonlinear_arith);
        if rest <= per {
            lemma_fundamental_div_mod(rest - 1, per);
            lemma_mod_bound(rest - 1, per);
            assert(k == 0) by (nonlinear_arith)
                requires
                    rest - 1 == per * k + (rest - 1) % per,
                    0 <= (rest - 1) % per < per,
                    0 <= rest - 1 < per,
            ;
        }
    }
}

/// It makes no difference in how many portions time is fed to a clock: two
/// portions one after the other leave the clock that their sum leaves.
pub proof fn lemma_timer_additive(t: ExplosionTimer, a: int, b: int)
    requires
        0 <= a,
        0 <= b,
        t.frame_duration > 0,
    ensures
        timer_after(timer_after(t, a), b) == timer_after(t, a + b),
{
    let per = t.frame_duration as int;
    let total = t.elapsed + a;
    let first = timer_after(t, a);
    if total > per {
        let k1 = (total - 1) / per;
        lemma_fundamental_div_mod(total - 1, per);
        lemma_mod_bound(total - 1, per);
        assert(per * k1 == k1 * per) by (nonlinear_arith);
        let rest = total - k1 * per;
        assert(1 <= rest <= per);
        assert(first.elapsed == rest);
        let second = rest + b;
        lemma_hoist_over_denominator(second - 1, k1, per as nat);
        assert((second - 1) / per + k1 == (second - 1 + k1 * per) / per);
        assert(second - 1 + k1 * per == total + b - 1);
        lemma_div_is_ordered(0, total - 1, per);
        assert(0int / per == 0);
        if second > per {
            let k2 = (second - 1) / per;
            lemma_div_is_ordered(0, second - 1, per);
            assert((k1 + k2) * per == k1 * per + k2 * per) by (nonlinear_arith);
        } else {
            lemma_fundamental_div_mod(second - 1, per);
            lemma_mod_bound(second - 1, per);
            let k2 = (second - 1) / per;
            assert(k2 == 0) by (nonlinear_arith)
                requires
                    second - 1 == per * k2 + (second - 1) % per,
                    0 <= (second - 1) % per < per,
                    0 <= second - 1 < per,
            ;
        }
    }
}

/// A tick in which the time gathered exceeds the duration of a frame
/// exactly once moves the clock on by exactly one frame.
pub proof fn lemma_one_frame(t: ExplosionTimer, dt: int)
    requires
        0 <= dt,
        t.frame_duration < t.elapsed + dt <= 2 * t.frame_duration,
        t.frame_index < u64::MAX,
    ensures
        timer_after(t, dt).frame_index == t.frame_index + 1,
        timer_after(t, dt).elapsed == t.elapsed + dt - t.frame_duration,
{
    let per = t.frame_duration as int;
    let total = t.elapsed + dt;
    lemma_fundamental_div_mod(total - 1, per);
    lemma_mod_bound(total - 1, per);
    let k = (total - 1) / per;
    assert(k == 1) by (nonlinear_arith)
        requires
            total - 1 == per * k + (total - 1) % per,
            0 <= (total - 1) % per < per,
            per <= total - 1 < 2 * per,
    ;
}

/// An explosion is over once more time has come together than all its
/// frames last: a clock that started afresh and has been fed more than
/// `frames` times the duration of a frame, in however many portions, stands
/// at frame `frames` or beyond.
pub proof fn lemma_explosion_ends(frame_duration: u64, frames: u64, fed: int)
    requires
        frame_duration > 0,
        fed > frames * frame_duration,
    ensures
        timer_after(fresh_timer(frame_duration), fed).frame_index >= frames,
{
    let per = frame_duration as int;
    assert(frames * per >= 0) by (nonlinear_arith)
        requires
            frames >= 0,
            per > 0,
    ;
    if fed > per {
        lemma_div_is_ordered(frames * per, fed - 1, per);
        lemma_div_multiples_vanish(frames as int, per);
        assert(per * frames == frames * per) by (nonlinear_arith);
    } else {
        assert(frames == 0) by (nonlinear_arith)
            requires
                frames * per < per,
                frames >= 0,
                per > 0,
        ;
    }
}

/// An explosion that has just begun does not outlive a tick that takes
/// longer than all its frames together.
pub proof fn lemma_long_tick_ends_explosion(id: EntityId, at: ExplosionRequest, dt: u64, config: Config)
    requires
        config.frame_duration > 0,
        dt > config.explosion_len * config.frame_duration,
    ensures
        burnt_out(animated(explosion_row(id, at, config), dt), config),
        !glowing(config)(animated(explosion_row(id, at, config), dt)),
{
    lemma_explosion_ends(config.frame_duration, config.explosion_len, dt as int);
}

/// The sum of some portions of time.
pub open spec fn total(portions: Seq<u64>) -> int
    decreases portions.len(),
{
    if portions.len() == 0 {
        0
    } else {
        total(portions.drop_last()) + portions.last()
    }
}

/// The rows after the animation stage has run once for each portion of
/// time, in their order.
pub open spec fn animation_run(rows: Seq<Row>, portions: Seq<u64>, config: Config) -> Seq<Row>
    decreases portions.len(),
{
    if portions.len() == 0 {
        rows
    } else {
        after_animation(animation_run(rows, portions.drop_last(), config), portions.last(), config)
    }
}

/// More time never takes a clock back to an earlier frame.
pub proof fn lemma_frames_grow(t: ExplosionTimer, a: int, b: int)
    requires
        0 <= a <= b,
        t.frame_duration > 0,
    ensures
        timer_after(t, a).frame_index <= timer_after(t, b).frame_index,
{
    lemma_timer_additive(t, a, b - a);
    let u = timer_after(t, a);
    let sum = u.elapsed + (b - a);
    if sum > u.frame_duration {
        lemma_div_is_ordered(0, sum - 1, u.frame_duration as int);
        assert(0int / (u.frame_duration as int) == 0);
    }
}

/// What one run of the animation stage does to the entity with a given
/// handle: it is there afterwards exactly if it was there and has not shown
/// its last frame, and then it is the row it was, animated. The rows stay in
/// the order of their handles.
pub proof fn lemma_animation_of(rows: Seq<Row>, dt: u64, config: Config, id: EntityId)
    requires
        ascending(rows),
    ensures
        ascending(after_animation(rows, dt, config)),
        live(after_animation(rows, dt, config), id) <==> live(rows, id) && !burnt_out(
            animated(rows[slot(rows, id)], dt),
            config,
        ),
        live(after_animation(rows, dt, config), id) ==> after_animation(rows, dt, config)[slot(
            after_animation(rows, dt, config),
            id,
        )] == animated(rows[slot(rows, id)], dt),
{
    let stepped = rows.map_values(frame_step(dt));
    let after = stepped.filter(glowing(config));
    assert forall|a: int, b: int| 0 <= a < b < stepped.len() implies (#[trigger] stepped[a]).id.0 < (
    #[trigger] stepped[b]).id.0 by {
        assert(rows[a].id.0 < rows[b].id.0);
    }
    assert(below(stepped, u64::MAX + 1));
    lemma_filter_ascending(stepped, glowing(config), u64::MAX + 1);
    if live(after, id) {
        let k = slot(after, id);
        let j = lemma_filtered_row(stepped, glowing(config), k);
        assert(rows[j].id == id);
        lemma_slot_unique(rows, j);
    }
    if live(rows, id) && !burnt_out(animated(rows[slot(rows, id)], dt), config) {
        let j = slot(rows, id);
        assert(glowing(config)(stepped[j]));
        stepped.lemma_filter_contains(glowing(config), j);
        let k = choose|k: int| 0 <= k < after.len() && after[k] == stepped[j];
        assert(after[k].id == id);
    }
}

/// An explosion over a run of the animation stage, in however many portions
/// the time comes: as long as the entity is there, its clock is the clock it
/// had, after the sum of the portions; it is there exactly as long as that
/// clock has not reached the last frame; and once it has left it does not
/// come back.
pub proof fn lemma_explosion_run(rows: Seq<Row>, i: int, portions: Seq<u64>, config: Config)
    requires
        ascending(rows),
        0 <= i < rows.len(),
        animates(rows[i]),
        rows[i].timer->0.frame_duration > 0,
        rows[i].timer->0.elapsed <= rows[i].timer->0.frame_duration,
    ensures
        ({
            let run = animation_run(rows, portions, config);
            let clock = timer_after(rows[i].timer->0, total(portions));
            &&& total(portions) >= 0
            &&& ascending(run)
            &&& portions.len() > 0 ==> (live(run, rows[i].id) <==> clock.frame_index
                < config.explosion_len)
            &&& live(run, rows[i].id) ==> run[slot(run, rows[i].id)] == (Row {
                timer: Some(clock),
                ..rows[i]
            })
        }),
    decreases portions.len(),
{
    let id = rows[i].id;
    let t = rows[i].timer->0;
    lemma_slot_unique(rows, i);
    if portions.len() > 0 {
        let front = portions.drop_last();
        let dt = portions.last();
        let before = animation_run(rows, front, config);
        let clock_before = timer_after(t, total(front));
        lemma_explosion_run(rows, i, front, config);
        lemma_animation_of(before, dt, config, id);
        lemma_timer_additive(t, total(front), dt as int);
        lemma_frames_grow(t, total(front), total(portions));
    }
}

/// An explosion that has just begun is gone after a run of the animation
/// stage whose portions of time come to more than all its frames together,
/// in however many portions the time comes.
pub proof fn lemma_explosion_leaves(rows: Seq<Row>, i: int, portions: Seq<u64>, config: Config)
    requires
        ascending(rows),
        0 <= i < rows.len(),
        animates(rows[i]),
        config.frame_duration > 0,
        rows[i].timer->0 == fresh_timer(config.frame_duration),
        total(portions) > config.explosion_len * config.frame_duration,
    ensures
        !live(animation_run(rows, portions, config), rows[i].id),
{
    lemma_explosion_run(rows, i, portions, config);
    lemma_explosion_ends(config.frame_duration, config.explosion_len, total(portions));
    assert(config.explosion_len * config.frame_duration >= 0) by (nonlinear_arith)
        requires
            config.explosion_len >= 0,
            config.frame_duration >= 0,
    ;
}

/// A clock after `dt` more microseconds.
pub fn tick_timer(t: ExplosionTimer, dt: u64) -> (next: ExplosionTimer)
    ensures
        next == timer_after(t, dt as int),
{
    let total: u128 = t.elapsed as u128 + dt as u128;
    let per: u128 = t.frame_duration as u128;
    if total <= per {
        ExplosionTimer {
            elapsed: total as u64,
            frame_duration: t.frame_duration,
            frame_index: t.frame_index,
        }
    } else if t.frame_duration == 0 {
        ExplosionTimer { elapsed: 0, frame_duration: t.frame_duration, frame_index: u64::MAX }
    } else {
        let frames: u128 = (total - 1) / per;
        proof {
            lemma_fundamental_div_mod(total as int - 1, per as int);
            lemma_mod_bound(total as int - 1, per as int);
            assert(per * frames == frames * per) by (nonlinear_arith);
        }
        let rest: u128 = total - frames * per;
        let index: u128 = t.frame_index as u128 + frames;
        ExplosionTimer {
            elapsed: rest as u64,
            frame_duration: t.frame_duration,
            frame_index: if index > u64::MAX as u128 {
                u64::MAX
            } else {
                index as u64
            },
        }
    }
}

/// The first half of the explosion stage. Every entity that asks for an
/// explosion is destroyed, and an explosion is created in its place, with
/// its clock at the start. No request outlives the stage. Returns the
/// number of explosions.
///
/// Nothing changes where the store has not a handle left for each
/// explosion.
pub fn explosion_to_spawn_system(world: &mut World, config: &Config) -> (made: Result<
    usize,
    StoreError,
>)
    requires
        old(world).wf(),
    ensures
        final(world).wf(),
        forall|id: EntityId| old(world).retired(id) ==> final(world).retired(id),
        old(world).next_id() + old(world)@.filter(asking()).len() <= u64::MAX ==> {
            &&& made is Ok
            &&& made->Ok_0 == old(world)@.filter(asking()).len()
            &&& final(world)@ == after_materialize(
                old(world)@,
                old(world).next_id() as int,
                *config,
            )
            &&& final(world).next_id() == old(world).next_id() + old(world)@.filter(asking()).len()
            &&& forall|i: int|
                0 <= i < final(world)@.len() ==> (#[trigger] final(world)@[i]).request is None
        },
        old(world).next_id() + old(world)@.filter(asking()).len() > u64::MAX ==> {
            &&& made == Err::<usize, StoreError>(StoreError::IdsExhausted)
            &&& final(world)@ == old(world)@
            &&& final(world).next_id() == old(world).next_id()
        },
{
    let asked = world.query(
        &CapabilitySet {
            position: false,
            velocity: false,
            movable: false,
            size: false,
            request: true,
            timer: false,
            role: None,
        },
    );
    let ghost rows = world@;
    let ghost first = world.next_id() as int;
    let mut buffer = CommandBuffer::new();
    let mut k: usize = 0;
    while k < asked.len()
        invariant
            k <= asked@.len(),
            asked@ == rows.filter(asking()),
            buffer.destroy@.len() == k,
            buffer.spawn@.len() == k,
            forall|j: int| 0 <= j < k ==> #[trigger] buffer.destroy@[j] == asked@[j].id,
            forall|j: int|
                0 <= j < k ==> #[trigger] buffer.spawn@[j] == explosion_row(
                    EntityId(0),
                    asked@[j].request->0,
                    *config,
                ),
        decreases asked@.len() - k,
    {
        let row = asked[k];
        proof {
            rows.lemma_filter_pred(asking(), k as int);
        }
        let at = match row.request {
            Some(q) => q,
            None => ExplosionRequest { x: 0, y: 0, depth: 0 },
        };
        buffer.spawn.push(
            Row {
                id: EntityId(0),
                position: Some(Position { x: at.x, y: at.y, depth: at.depth, scale: 1000 }),
                velocity: None,
                movable: None,
                size: None,
                role: Some(Role::Explosion),
                request: None,
                timer: Some(
                    ExplosionTimer {
                        elapsed: 0,
                        frame_duration: config.frame_duration,
                        frame_index: 0,
                    },
                ),
            },
        );
        buffer.destroy.push(row.id);
        k += 1;
    }
    let made = asked.len();
    match world.commit(&buffer) {
        Ok(()) => {
            proof {
                assert forall|id: EntityId| buffer.destroy@.contains(id) <==> exists|i: int|
                    0 <= i < rows.len() && (#[trigger] rows[i]).id == id && !settled()(rows[i]) by {
                    if buffer.destroy@.contains(id) {
                        let j = choose|j: int|
                            0 <= j < buffer.destroy@.len() && buffer.destroy@[j] == id;
                        let i = lemma_filtered_row(rows, asking(), j);
                        assert(rows[i].id == id && !settled()(rows[i]));
                    }
                    if exists|i: int|
                        0 <= i < rows.len() && (#[trigger] rows[i]).id == id && !settled()(rows[i]) {
                        let i = choose|i: int|
                            0 <= i < rows.len() && (#[trigger] rows[i]).id == id && !settled()(
                                rows[i],
                            );
                        assert(asking()(rows[i]));
                        rows.lemma_filter_contains(asking(), i);
                        let j = choose|j: int| 0 <= j < asked@.len() && asked@[j] == rows[i];
                        assert(buffer.destroy@[j] == id);
                    }
                }
                lemma_spared_by_rule(rows, buffer.destroy@, settled());
                assert(fresh_rows(buffer.spawn@, first) =~= bursts(asked@, first, *config));
                let after = world@;
                let kept = rows.filter(settled());
                assert forall|i: int| 0 <= i < after.len() implies (#[trigger] after[i]).request
                    is None by {
                    if i < kept.len() {
                        rows.lemma_filter_pred(settled(), i);
                        assert(after[i] == kept[i]);
                    } else {
                        assert(after[i] == bursts(asked@, first, *config)[i - kept.len()]);
                    }
                }
            }
            Ok(made)
        },
        Err(e) => Err(StoreError::IdsExhausted),
    }
}

/// The second half of the explosion stage. The clock of every explosion
/// goes on by the time that the tick took, and the explosions that have
/// then shown their last frame are destroyed. The other entities stay as
/// they are, and the order of the entities is kept.
pub fn explosion_animation_system(world: &mut World, elapsed: u64, config: &Config)
    requires
        old(world).wf(),
    ensures
        final(world).wf(),
        final(world).next_id() == old(world).next_id(),
        final(world)@ == after_animation(old(world)@, elapsed, *config),
        forall|id: EntityId| old(world).retired(id) ==> final(world).retired(id),
{
    let ghost before = *world;
    let ghost rows = world@;
    let mut buffer = CommandBuffer::new();
    let n = world.len();
    let mut i: usize = 0;
    while i < n
        invariant
            i <= n,
            n == rows.len(),
            world.wf(),
            world@.len() == n,
            world.next_id() == before.next_id(),
            forall|k: int| 0 <= k < i ==> #[trigger] world@[k] == animated(rows[k], elapsed),
            forall|k: int| i <= k < n ==> #[trigger] world@[k] == rows[k],
            forall|id: EntityId|
                buffer.destroy@.contains(id) <==> exists|k: int|
                    0 <= k < i && (#[trigger] world@[k]).id == id && !glowing(*config)(world@[k]),
            buffer.spawn@.len() == 0,
            forall|id: EntityId| before.retired(id) ==> world.retired(id),
        decreases n - i,
    {
        let row = world.row(i);
        let ghost earlier = world@;
        let ghost listed = buffer.destroy@;
        if row.has_role(Role::Explosion) {
            match row.timer {
                Some(t) => {
                    let next = tick_timer(t, elapsed);
                    world.put(
                        i,
                        Row {
                            id: row.id,
                            position: row.position,
                            velocity: row.velocity,
                            movable: row.movable,
                            size: row.size,
                            role: row.role,
                            request: row.request,
                            timer: Some(next),
                        },
                    );
                    if next.frame_index >= config.explosion_len {
                        buffer.destroy.push(row.id);
                    }
                },
                None => {},
            }
        }
        proof {
            let now = world@;
            assert(now[i as int] == animated(rows[i as int], elapsed));
            lemma_listed_grows(earlier, now, listed, buffer.destroy@, i as int, glowing(*config));
        }
        i += 1;
    }
    let ghost stepped = world@;
    let done = world.commit(&buffer);
    proof {
        assert(stepped =~= rows.map_values(frame_step(elapsed)));
        assert(buffer.spawn@ =~= Seq::<Row>::empty());
        lemma_commit_no_spawn(stepped, before.next_id() as int, buffer.destroy@);
        lemma_spared_by_rule(stepped, buffer.destroy@, glowing(*config));
    }
}

} // verus!
