//! The movement stage: every movable entity goes on by its velocity, and
//! those that are to be removed once they have left the arena are removed.

use vstd::prelude::*;
use vstd::arithmetic::div_mod::{
    lemma_fundamental_div_mod, lemma_fundamental_div_mod_converse, lemma_mod_bound,
};
use crate::components::{EntityId, Movable, Position, Row, Velocity, UNIT};
use crate::config::Config;
use crate::fixed::{clamp, saturate};
use crate::world::{
    lemma_commit_no_spawn, lemma_listed_grows, lemma_spared_by_rule, CommandBuffer, World,
};

verus! {

/// Into how many parts a world unit is divided where steps are added up:
/// fine enough that the way gone in one step is a whole number of parts.
pub open spec fn parts(config: Config) -> int {
    UNIT * config.time_step.den
}

/// The way gone along one axis in one step, in parts of a world unit: the
/// velocity times the time step times the base speed, exactly.
pub open spec fn pace(v: i32, config: Config) -> int {
    v * (config.time_step.num * config.base_speed)
}

/// How many whole world units an entity goes on along one axis in one step:
/// the whole units in the way of this step together with the parts carried
/// over from the steps before.
pub open spec fn displacement(v: i32, carry: u64, config: Config) -> int {
    (carry + pace(v, config)) / parts(config)
}

/// The parts of a world unit that a step leaves over for the next one.
pub open spec fn carried(v: i32, carry: u64, config: Config) -> int {
    (carry + pace(v, config)) % parts(config)
}

/// The place after one step. A coordinate stops at the end of its range.
pub open spec fn advanced(p: Position, v: Velocity, m: Movable, config: Config) -> Position {
    Position {
        x: clamp(p.x + displacement(v.x, m.carry_x, config)),
        y: clamp(p.y + displacement(v.y, m.carry_y, config)),
        ..p
    }
}

/// The mark after one step: it carries what the step has left over.
pub open spec fn carrying(v: Velocity, m: Movable, config: Config) -> Movable {
    Movable {
        carry_x: carried(v.x, m.carry_x, config) as u64,
        carry_y: carried(v.y, m.carry_y, config) as u64,
        ..m
    }
}

/// The whole units gone along one axis in `n` steps at one velocity.
pub open spec fn gone(v: i32, carry: u64, n: nat, config: Config) -> int
    decreases n,
{
    if n == 0 {
        0
    } else {
        gone(v, carry, (n - 1) as nat, config) + displacement(
            v,
            left_over(v, carry, (n - 1) as nat, config),
            config,
        )
    }
}

/// The parts left over after `n` steps at one velocity.
pub open spec fn left_over(v: i32, carry: u64, n: nat, config: Config) -> u64
    decreases n,
{
    if n == 0 {
        carry
    } else {
        carried(v, left_over(v, carry, (n - 1) as nat, config), config) as u64
    }
}

/// The place lies beyond the arena and its margin, to one side or another.
/// The arena reaches half its width and half its height from the origin.
pub open spec fn leaves(p: Position, config: Config) -> bool {
    let reach_x = config.win_size.w + 2 * config.margin;
    let reach_y = config.win_size.h + 2 * config.margin;
    2 * p.y > reach_y || 2 * p.y < -reach_y || 2 * p.x > reach_x || 2 * p.x < -reach_x
}

/// Whether the stage moves a row: it has a place, a velocity and the mark.
pub open spec fn moves(row: Row) -> bool {
    row.position is Some && row.velocity is Some && row.movable is Some
}

/// A row after one step.
pub open spec fn moved(row: Row, config: Config) -> Row {
    if moves(row) {
        Row {
            position: Some(advanced(row.position->0, row.velocity->0, row.movable->0, config)),
            movable: Some(carrying(row.velocity->0, row.movable->0, config)),
            ..row
        }
    } else {
        row
    }
}

/// Whether the stage removes a row that stands where the step has brought
/// it.
pub open spec fn despawns(row: Row, config: Config) -> bool {
    moves(row) && row.movable->0.auto_despawn && leaves(row.position->0, config)
}

/// The step, row by row.
pub open spec fn step(config: Config) -> spec_fn(Row) -> Row {
    |row: Row| moved(row, config)
}

/// The rows that the stage does not remove.
pub open spec fn stays(config: Config) -> spec_fn(Row) -> bool {
    |row: Row| !despawns(row, config)
}

/// The rows after the stage.
pub open spec fn after_movement(rows: Seq<Row>, config: Config) -> Seq<Row> {
    rows.map_values(step(config)).filter(stays(config))
}

/// Movement is exact: the whole units gone in a step and the parts left
/// over are together the parts carried in and the way of the step, so that
/// nothing is lost from one step to the next. Less than a unit is left over.
pub proof fn lemma_step_exact(v: i32, carry: u64, config: Config)
    requires
        config.time_step.den > 0,
    ensures
        displacement(v, carry, config) * parts(config) + carried(v, carry, config) == carry + pace(
            v,
            config,
        ),
        0 <= carried(v, carry, config) < parts(config),
        parts(config) <= 1000 * 0xFFFF_FFFF,
{
    let all = carry + pace(v, config);
    let per = parts(config);
    lemma_fundamental_div_mod(all, per);
    lemma_mod_bound(all, per);
    assert(per * (all / per) == (all / per) * per) by (nonlinear_arith);
}

/// The place of an entity after a step is the place before it and the
/// velocity times the time step times the base speed, exactly, where the
/// place is counted in parts of a world unit, carried parts included, and as
/// long as no coordinate has stopped at the end of its range. Depth and
/// scale stay, and so does the mark but for what it carries.
pub proof fn lemma_advance_exact(p: Position, v: Velocity, m: Movable, config: Config)
    requires
        config.time_step.den > 0,
    ensures
        ({
            let q = advanced(p, v, m, config);
            let k = carrying(v, m, config);
            let dx = displacement(v.x, m.carry_x, config);
            let dy = displacement(v.y, m.carry_y, config);
            &&& i64::MIN <= p.x + dx <= i64::MAX ==> q.x * parts(config) + k.carry_x == p.x
                * parts(config) + m.carry_x + pace(v.x, config)
            &&& i64::MIN <= p.y + dy <= i64::MAX ==> q.y * parts(config) + k.carry_y == p.y
                * parts(config) + m.carry_y + pace(v.y, config)
            &&& q.depth == p.depth
            &&& q.scale == p.scale
            &&& k.auto_despawn == m.auto_despawn
            &&& k.carry_x < parts(config)
            &&& k.carry_y < parts(config)
        }),
{
    lemma_step_exact(v.x, m.carry_x, config);
    lemma_step_exact(v.y, m.carry_y, config);
    let per = parts(config);
    let dx = displacement(v.x, m.carry_x, config);
    let dy = displacement(v.y, m.carry_y, config);
    assert((p.x + dx) * per == p.x * per + dx * per) by (nonlinear_arith);
    assert((p.y + dy) * per == p.y * per + dy * per) by (nonlinear_arith);
}

/// Over any number of steps at one velocity the place is exact: the whole
/// units gone and the parts left over are together the parts carried in and
/// the way of one step, taken once for each step.
pub proof fn lemma_steps_exact(v: i32, carry: u64, n: nat, config: Config)
    requires
        config.time_step.den > 0,
    ensures
        gone(v, carry, n, config) * parts(config) + left_over(v, carry, n, config) == carry + n
            * pace(v, config),
        n > 0 ==> left_over(v, carry, n, config) < parts(config),
    decreases n,
{
    if n > 0 {
        let before = (n - 1) as nat;
        lemma_steps_exact(v, carry, before, config);
        let rest = left_over(v, carry, before, config);
        lemma_step_exact(v, rest, config);
        let g = gone(v, carry, before, config);
        let d = displacement(v, rest, config);
        let per = parts(config);
        let p = pace(v, config);
        assert((g + d) * per == g * per + d * per) by (nonlinear_arith);
        assert(n * p == before * p + p) by (nonlinear_arith)
            requires
                n == before + 1,
        ;
        assert(left_over(v, carry, n, config) == carried(v, rest, config));
        assert(gone(v, carry, n, config) == g + d);
    } else {
        assert(gone(v, carry, n, config) * parts(config) == 0) by (nonlinear_arith)
            requires
                gone(v, carry, n, config) == 0,
        ;
        assert(n * pace(v, config) == 0) by (nonlinear_arith)
            requires
                n == 0,
        ;
    }
}

/// The whole units gone along one axis in one step, and the parts left over.
fn displace(v: i32, carry: u64, config: &Config) -> (step: (i128, u64))
    requires
        config.time_step.den > 0,
    ensures
        step.0 == displacement(v, carry, *config),
        step.1 == carried(v, carry, *config),
        -0x1_0000_0000_0000_0000_0000_0000 <= step.0 <= 0x1_0000_0000_0000_0000_0000_0000,
{
    let num = config.time_step.num;
    let base = config.base_speed;
    assert(0 <= num * base <= 0xFFFF_FFFF * 0xFFFF_FFFF) by (nonlinear_arith)
        requires
            0 <= num <= 0xFFFF_FFFF,
            0 <= base <= 0xFFFF_FFFF,
    ;
    let speed: u128 = (num as u128) * (base as u128);
    let per: u128 = 1000 * (config.time_step.den as u128);
    let size: u128 = if v < 0 {
        (-(v as i64)) as u128
    } else {
        v as u128
    };
    assert(0 <= size * speed <= 0x8000_0000 * (0xFFFF_FFFF * 0xFFFF_FFFF)) by (nonlinear_arith)
        requires
            0 <= size <= 0x8000_0000,
            0 <= speed <= 0xFFFF_FFFF * 0xFFFF_FFFF,
    ;
    let way: u128 = size * speed;
    proof {
        lemma_step_exact(v, carry, *config);
        if v < 0 {
            assert(pace(v, *config) == -(way as int)) by (nonlinear_arith)
                requires
                    way == (-v) * (num * base),
                    pace(v, *config) == v * (num * base),
            ;
        }
    }
    if v >= 0 || carry as u128 >= way {
        let all: u128 = if v >= 0 {
            carry as u128 + way
        } else {
            carry as u128 - way
        };
        let whole: u128 = all / per;
        proof {
            lemma_fundamental_div_mod(all as int, per as int);
            lemma_mod_bound(all as int, per as int);
            assert(per * whole == whole * per) by (nonlinear_arith);
            assert(whole <= all) by (nonlinear_arith)
                requires
                    all == per * whole + (all as int) % (per as int),
                    0 <= (all as int) % (per as int),
                    per >= 1,
                    whole >= 0,
            ;
        }
        (whole as i128, (all % per) as u64)
    } else {
        let short: u128 = way - carry as u128;
        let whole: u128 = short / per;
        let over: u128 = short % per;
        proof {
            lemma_fundamental_div_mod(short as int, per as int);
            lemma_mod_bound(short as int, per as int);
            assert(per * whole == whole * per) by (nonlinear_arith);
            assert(whole <= short) by (nonlinear_arith)
                requires
                    short == per * whole + over,
                    0 <= over,
                    per >= 1,
                    whole >= 0,
            ;
            let all = carry + pace(v, *config);
            assert(all == -(short as int));
            if over == 0 {
                assert((-(whole as int)) * per == -(whole * per)) by (nonlinear_arith);
                lemma_fundamental_div_mod_converse(all, per as int, -(whole as int), 0);
            } else {
                assert((-(whole as int) - 1) * per == -(whole * per) - per) by (nonlinear_arith);
                lemma_fundamental_div_mod_converse(
                    all,
                    per as int,
                    -(whole as int) - 1,
                    per - over,
                );
            }
        }
        if over == 0 {
            (-(whole as i128), 0)
        } else {
            (-(whole as i128) - 1, (per - over) as u64)
        }
    }
}

/// The place after one step, and the mark with what the step has left over.
pub fn advance(p: Position, v: Velocity, m: Movable, config: &Config) -> (next: (Position, Movable))
    requires
        config.time_step.den > 0,
    ensures
        next.0 == advanced(p, v, m, *config),
        next.1 == carrying(v, m, *config),
{
    let (dx, rest_x) = displace(v.x, m.carry_x, config);
    let (dy, rest_y) = displace(v.y, m.carry_y, config);
    (
        Position {
            x: saturate(p.x as i128 + dx),
            y: saturate(p.y as i128 + dy),
            depth: p.depth,
            scale: p.scale,
        },
        Movable { auto_despawn: m.auto_despawn, carry_x: rest_x, carry_y: rest_y },
    )
}

/// Whether the place lies beyond the arena and its margin.
pub fn out_of_bounds(p: Position, config: &Config) -> (out: bool)
    ensures
        out == leaves(p, *config),
{
    let reach_x: i128 = config.win_size.w as i128 + 2 * (config.margin as i128);
    let reach_y: i128 = config.win_size.h as i128 + 2 * (config.margin as i128);
    let x: i128 = 2 * (p.x as i128);
    let y: i128 = 2 * (p.y as i128);
    y > reach_y || y < -reach_y || x > reach_x || x < -reach_x
}

/// The movement stage. Every entity with a place, a velocity and the mark
/// goes on by one step, and its mark carries what the step has left over of
/// a world unit; of these entities, the ones marked for removal that then
/// stand beyond the arena and its margin are destroyed. The others stay as
/// they are, and the order of the entities is kept.
pub fn movable_system(world: &mut World, config: &Config)
    requires
        old(world).wf(),
        config.time_step.den > 0,
    ensures
        final(world).wf(),
        final(world).next_id() == old(world).next_id(),
        final(world)@ == after_movement(old(world)@, *config),
        forall|id: EntityId| old(world).retired(id) ==> final(world).retired(id),
{
    let ghost before = *world;
    let ghost rows = world@;
    let mut buffer = CommandBuffer::new();
    let n = world.len();
    let mut i: usize = 0;
    while i < n
        invariant
            i <= n,
            n == rows.len(),
            config.time_step.den > 0,
            world.wf(),
            world@.len() == n,
            world.next_id() == before.next_id(),
            forall|k: int| 0 <= k < i ==> #[trigger] world@[k] == moved(rows[k], *config),
            forall|k: int| i <= k < n ==> #[trigger] world@[k] == rows[k],
            forall|id: EntityId|
                buffer.destroy@.contains(id) <==> exists|k: int|
                    0 <= k < i && (#[trigger] world@[k]).id == id && !stays(*config)(world@[k]),
            buffer.spawn@.len() == 0,
            forall|id: EntityId| before.retired(id) ==> world.retired(id),
        decreases n - i,
    {
        let row = world.row(i);
        let ghost earlier = world@;
        let ghost listed = buffer.destroy@;
        match (row.position, row.velocity, row.movable) {
            (Some(p), Some(v), Some(m)) => {
                let (next, mark) = advance(p, v, m, config);
                world.put(
                    i,
                    Row {
                        id: row.id,
                        position: Some(next),
                        velocity: row.velocity,
                        movable: Some(mark),
                        size: row.size,
                        role: row.role,
                        request: row.request,
                        timer: row.timer,
                    },
                );
                if m.auto_despawn && out_of_bounds(next, config) {
                    buffer.destroy.push(row.id);
                }
            },
            _ => {},
        }
        proof {
            let now = world@;
            assert(now[i as int] == moved(rows[i as int], *config));
            lemma_listed_grows(earlier, now, listed, buffer.destroy@, i as int, stays(*config));
        }
        i += 1;
    }
    let ghost stepped = world@;
    let done = world.commit(&buffer);
    proof {
        assert(stepped =~= rows.map_values(step(*config)));
        assert(buffer.spawn@ =~= Seq::<Row>::empty());
        lemma_commit_no_spawn(stepped, before.next_id() as int, buffer.destroy@);
        lemma_spared_by_rule(stepped, buffer.destroy@, stays(*config));
    }
}

} // verus!
