//! The commands of AI clients: their immediate part (`init`), their final
//! part once their delay has elapsed (`execute`), and the direction from
//! which a sound reaches a player (`compute_direction`).

pub mod movement;
pub mod interaction;
pub mod social;
pub mod incantation;

use vstd::prelude::*;
use crate::clock::now_nanos;
use crate::game::player::{Direction, Player, left_of, right_of};
use crate::game::world::{World, eggs_of, has_player, player_index, slots_of};
use crate::lines::{self, number_line, tagged_line};
use crate::protocol::{Command, CommandModel};

verus! {

/// The column reached by one step from column `x` facing `d` on a map `w`
/// tiles wide (wrapping around the edges).
pub open spec fn step_x(x: u32, d: Direction, w: u32) -> u32 {
    match d {
        Direction::East => ((x + 1) % (w as int)) as u32,
        Direction::West => if x == 0 {
            (w - 1) as u32
        } else {
            (x - 1) as u32
        },
        _ => x,
    }
}

/// The row reached by one step from row `y` facing `d` on a map `h` tiles
/// high (wrapping around the edges; north is toward row 0).
pub open spec fn step_y(y: u32, d: Direction, h: u32) -> u32 {
    match d {
        Direction::South => ((y + 1) % (h as int)) as u32,
        Direction::North => if y == 0 {
            (h - 1) as u32
        } else {
            (y - 1) as u32
        },
        _ => y,
    }
}

/// The messages waiting for a player's client, as character sequences.
pub open spec fn notes(p: Player) -> Seq<Seq<char>> {
    p.notifications@.map_values(|s: String| s@)
}

/// `player_id` names a player of a well-formed world.
pub open spec fn acting(world: World, player_id: usize) -> bool {
    &&& world.wf()
    &&& has_player(world.players@, player_id)
}

/// The player `player_id` of `world`.
pub open spec fn actor(world: World, player_id: usize) -> Player {
    world.players@[player_index(world.players@, player_id)]
}

/// A step from an on-map tile stays on the map.
pub proof fn lemma_step_on_map(x: u32, y: u32, d: Direction, w: u32, h: u32)
    requires
        x < w,
        y < h,
    ensures
        step_x(x, d, w) < w,
        step_y(y, d, h) < h,
{
}

/// The position of a step, computed as `(x + dx).rem_euclid(w)`.
pub fn step(x: u32, y: u32, d: Direction, w: u32, h: u32) -> (res: (u32, u32))
    requires
        x < w,
        y < h,
    ensures
        res.0 == step_x(x, d, w),
        res.1 == step_y(y, d, h),
        res.0 < w,
        res.1 < h,
{
    match d {
        Direction::North => (x, if y == 0 {
            h - 1
        } else {
            y - 1
        }),
        Direction::East => ((x + 1) % w, y),
        Direction::South => (x, (y + 1) % h),
        Direction::West => (if x == 0 {
            w - 1
        } else {
            x - 1
        }, y),
    }
}

pub open spec fn abs_int(d: int) -> int {
    if d < 0 {
        -d
    } else {
        d
    }
}

pub open spec fn sign_int(d: int) -> int {
    if d < 0 {
        -1
    } else if d > 0 {
        1
    } else {
        0
    }
}

/// `size / 2`, rounded toward zero.
pub open spec fn half_toward_zero(size: int) -> int {
    if size >= 0 {
        size / 2
    } else {
        -((-size) / 2)
    }
}

/// The shortest representation of an offset `d` on a ring of `size` cells
/// (the minimum image convention): an offset longer than half the ring is
/// replaced by the one going the other way round.
pub open spec fn wrap_delta(d: int, size: int) -> int {
    if abs_int(d) > half_toward_zero(size) {
        d - sign_int(d) * size
    } else {
        d
    }
}

/// `a < sqrt(2) * b`.
pub open spec fn lt_sqrt2(a: int, b: int) -> bool {
    if b >= 0 {
        a < 0 || a * a < 2 * (b * b)
    } else {
        a < 0 && a * a > 2 * (b * b)
    }
}

/// The compass sector of the vector going `e` east and `n` north, counted
/// clockwise from 0 (north) to 7 (north-west), each sector spanning 45
/// degrees centered on its direction. A vector lies within 22.5 degrees of
/// the vertical axis exactly when `|e| + |n| < sqrt(2) * |n|`, and of the
/// horizontal one when `|e| + |n| < sqrt(2) * |e|`. The null vector points
/// north.
pub open spec fn compass_sector(e: int, n: int) -> int {
    if e == 0 && n == 0 {
        0
    } else if lt_sqrt2(abs_int(e) + abs_int(n), abs_int(n)) {
        if n > 0 {
            0
        } else {
            4
        }
    } else if lt_sqrt2(abs_int(e) + abs_int(n), abs_int(e)) {
        if e > 0 {
            2
        } else {
            6
        }
    } else if e > 0 && n > 0 {
        1
    } else if e > 0 && n < 0 {
        3
    } else if e < 0 && n < 0 {
        5
    } else {
        7
    }
}

/// The compass sector is the 45-degree sector that holds the angle of
/// `(e, n)`, measured clockwise from north. Since `tan(22.5°) = √2 - 1`, a
/// vector lies within 22.5 degrees of the north-south axis exactly when
/// `|e| < (√2 - 1) * |n|`, that is `(|e| + |n|)² < 2n²`, and of the east-west
/// axis when `(|e| + |n|)² < 2e²`; a vector near neither axis lies in the
/// diagonal sector of its quadrant.
pub proof fn lemma_compass_sector_is_angle(e: int, n: int)
    requires
        !(e == 0 && n == 0),
    ensures
        ({
            let a = abs_int(e) + abs_int(n);
            let near_ns = a * a < 2 * (n * n);
            let near_ew = a * a < 2 * (e * e);
            let s = compass_sector(e, n);
            &&& 0 <= s < 8
            &&& (s == 0) == (n > 0 && near_ns)
            &&& (s == 1) == (e > 0 && n > 0 && !near_ns && !near_ew)
            &&& (s == 2) == (e > 0 && near_ew)
            &&& (s == 3) == (e > 0 && n < 0 && !near_ns && !near_ew)
            &&& (s == 4) == (n < 0 && near_ns)
            &&& (s == 5) == (e < 0 && n < 0 && !near_ns && !near_ew)
            &&& (s == 6) == (e < 0 && near_ew)
            &&& (s == 7) == (e < 0 && n > 0 && !near_ns && !near_ew)
        }),
{
    let ae = abs_int(e);
    let an = abs_int(n);
    let a = ae + an;
    assert(ae * ae == e * e && an * an == n * n) by (nonlinear_arith)
        requires
            ae == abs_int(e),
            an == abs_int(n),
    ;
    assert(!(a * a < 2 * (n * n) && a * a < 2 * (e * e))) by (nonlinear_arith)
        requires
            a == ae + an,
            ae >= 0,
            an >= 0,
            ae * ae == e * e,
            an * an == n * n,
    ;
    assert(e == 0 ==> a * a < 2 * (n * n)) by (nonlinear_arith)
        requires
            a == ae + an,
            ae == abs_int(e),
            an == abs_int(n),
            an * an == n * n,
            !(e == 0 && n == 0),
    ;
    assert(n == 0 ==> a * a < 2 * (e * e)) by (nonlinear_arith)
        requires
            a == ae + an,
            ae == abs_int(e),
            an == abs_int(n),
            ae * ae == e * e,
            !(e == 0 && n == 0),
    ;
    assert(lt_sqrt2(a, an) == (a * a < 2 * (n * n)));
    assert(lt_sqrt2(a, ae) == (a * a < 2 * (e * e)));
}

/// How many eighths of a turn a facing is from north, clockwise.
pub open spec fn facing_offset(d: Direction) -> int {
    match d {
        Direction::North => 0,
        Direction::East => 2,
        Direction::South => 4,
        Direction::West => 6,
    }
}

/// The number (1 to 8, 0 for the same tile) of the direction from which a
/// receiver at `(rx, ry)` facing `rdir` hears a sound emitted at
/// `(sx, sy)` on a torus of `w` x `h` tiles: 1 is the tile in front of the
/// receiver, and the numbers go clockwise around it. The path of
/// the sound is the shortest one on the torus; `y` grows southward.
pub open spec fn sound_direction(
    rx: int,
    ry: int,
    rdir: Direction,
    sx: int,
    sy: int,
    w: int,
    h: int,
) -> u32 {
    if rx == sx && ry == sy {
        0
    } else {
        let e = wrap_delta(sx - rx, w);
        let n = -wrap_delta(sy - ry, h);
        (((compass_sector(e, n) - facing_offset(rdir)) % 8) + 1) as u32
    }
}

/// A sound from the tile in front of a receiver comes from direction 1, on
/// any map at least three tiles long in the direction the receiver faces.
pub proof fn lemma_front_is_one(rx: u32, ry: u32, d: Direction, w: u32, h: u32)
    requires
        rx < w,
        ry < h,
        d is North || d is South ==> h >= 3,
        d is East || d is West ==> w >= 3,
    ensures
        sound_direction(
            rx as int,
            ry as int,
            d,
            step_x(rx, d, w) as int,
            step_y(ry, d, h) as int,
            w as int,
            h as int,
        ) == 1,
{
    assert(half_toward_zero(w as int) == w / 2);
    assert(half_toward_zero(h as int) == h / 2);
    match d {
        Direction::North => {
            assert(wrap_delta(0, w as int) == 0);
            assert(wrap_delta(step_y(ry, d, h) - ry, h as int) == -1);
            assert(compass_sector(0, 1) == 0);
        },
        Direction::South => {
            assert(wrap_delta(0, w as int) == 0);
            if ry + 1 < h {
                vstd::arithmetic::div_mod::lemma_small_mod((ry + 1) as nat, h as nat);
                assert(step_y(ry, d, h) == ry + 1);
                assert(step_y(ry, d, h) - ry == 1);
                assert(h / 2 >= 1);
                assert(wrap_delta(1, h as int) == 1);
            } else {
                vstd::arithmetic::div_mod::lemma_mod_self_0(h as int);
                assert(step_y(ry, d, h) == 0);
                let dy = 0 - ry;
                assert(ry == h - 1);
                assert(abs_int(dy) == h - 1);
                assert(h - 1 > h / 2);
                assert(sign_int(dy) == -1);
                assert(step_y(ry, d, h) - ry == dy);
                assert(wrap_delta(dy, h as int) == 1);
            }
            assert(compass_sector(0, -1) == 4);
        },
        Direction::East => {
            assert(wrap_delta(0, h as int) == 0);
            if rx + 1 < w {
                vstd::arithmetic::div_mod::lemma_small_mod((rx + 1) as nat, w as nat);
                assert(step_x(rx, d, w) == rx + 1);
            } else {
                vstd::arithmetic::div_mod::lemma_mod_self_0(w as int);
                assert(step_x(rx, d, w) == 0);
                let dx = 0 - rx;
                assert(rx == w - 1);
                assert(abs_int(dx) == w - 1);
                assert(w - 1 > w / 2);
                assert(sign_int(dx) == -1);
            }
            assert(wrap_delta(step_x(rx, d, w) - rx, w as int) == 1);
            assert(compass_sector(1, 0) == 2);
        },
        Direction::West => {
            assert(wrap_delta(0, h as int) == 0);
            assert(wrap_delta(step_x(rx, d, w) - rx, w as int) == -1);
            assert(compass_sector(-1, 0) == 6);
        },
    }
}

/// Turning the receiver a quarter turn right lowers the number of the
/// direction a sound comes from by two, cyclically in 1 to 8; a quarter
/// turn left raises it by two.
pub proof fn lemma_turn_rotates(rx: int, ry: int, d: Direction, sx: int, sy: int, w: int, h: int)
    requires
        !(rx == sx && ry == sy),
    ensures
        sound_direction(rx, ry, right_of(d), sx, sy, w, h) == (sound_direction(rx, ry, d, sx, sy, w, h)
            + 5) % 8 + 1,
        sound_direction(rx, ry, left_of(d), sx, sy, w, h) == (sound_direction(rx, ry, d, sx, sy, w, h)
            + 1) % 8 + 1,
{
    let e = wrap_delta(sx - rx, w);
    let n = -wrap_delta(sy - ry, h);
    let s = compass_sector(e, n);
    assert(0 <= s < 8);
    let c = s - facing_offset(d);
    assert(sound_direction(rx, ry, d, sx, sy, w, h) == (c % 8) + 1);
    assert(sound_direction(rx, ry, right_of(d), sx, sy, w, h) == ((s - facing_offset(right_of(d))) % 8)
        + 1);
    assert(sound_direction(rx, ry, left_of(d), sx, sy, w, h) == ((s - facing_offset(left_of(d))) % 8)
        + 1);
}

/// The computation of an offset and of its shortest representation stays
/// within `i32`.
pub open spec fn delta_fits(d: int, size: int) -> bool {
    &&& i32::MIN < d <= i32::MAX
    &&& abs_int(d) > half_toward_zero(size) ==> {
        &&& i32::MIN <= sign_int(d) * size <= i32::MAX
        &&& i32::MIN <= d - sign_int(d) * size <= i32::MAX
    }
}

/// Between two tiles of a map no wider nor higher than `i32::MAX`, the
/// offsets stay within the bounds that `compute_direction` accepts.
pub proof fn lemma_on_map_deltas(rx: u32, ry: u32, sx: u32, sy: u32, w: u32, h: u32)
    requires
        rx < w,
        ry < h,
        sx < w,
        sy < h,
        w <= i32::MAX,
        h <= i32::MAX,
    ensures
        delta_fits(sx - rx, w as int),
        delta_fits(sy - ry, h as int),
        wrap_delta(sy - ry, h as int) != i32::MIN,
{
    lemma_delta_fits(sx - rx, w as int);
    lemma_delta_fits(sy - ry, h as int);
}

proof fn lemma_delta_fits(d: int, size: int)
    requires
        -size < d < size,
        0 < size <= i32::MAX,
    ensures
        delta_fits(d, size),
        -size < wrap_delta(d, size) < size,
{
    assert(half_toward_zero(size) == size / 2);
    if abs_int(d) > half_toward_zero(size) {
        if d < 0 {
            assert(sign_int(d) == -1);
            assert(d - sign_int(d) * size == d + size);
        } else {
            assert(sign_int(d) == 1);
            assert(d - sign_int(d) * size == d - size);
        }
    }
}

fn lt_sqrt2_exec(a: i128, b: i128) -> (res: bool)
    requires
        -0x1_0000_0000_0000 <= a <= 0x1_0000_0000_0000,
        -0x1_0000_0000_0000 <= b <= 0x1_0000_0000_0000,
    ensures
        res == lt_sqrt2(a as int, b as int),
{
    assert(a * a <= 0x1_0000_0000_0000_0000_0000_0000 && b * b <= 0x1_0000_0000_0000_0000_0000_0000)
        by (nonlinear_arith)
        requires
            -0x1_0000_0000_0000 <= a <= 0x1_0000_0000_0000,
            -0x1_0000_0000_0000 <= b <= 0x1_0000_0000_0000,
    ;
    assert(0 <= a * a && 0 <= b * b) by (nonlinear_arith);
    if b >= 0 {
        a < 0 || a * a < 2 * (b * b)
    } else {
        a < 0 && a * a > 2 * (b * b)
    }
}

fn compass_sector_exec(e: i128, n: i128) -> (res: i128)
    requires
        -0x1_0000_0000_0 <= e <= 0x1_0000_0000_0,
        -0x1_0000_0000_0 <= n <= 0x1_0000_0000_0,
    ensures
        res == compass_sector(e as int, n as int),
        0 <= res < 8,
{
    let ae = if e < 0 {
        -e
    } else {
        e
    };
    let an = if n < 0 {
        -n
    } else {
        n
    };
    if e == 0 && n == 0 {
        0
    } else if lt_sqrt2_exec(ae + an, an) {
        if n > 0 {
            0
        } else {
            4
        }
    } else if lt_sqrt2_exec(ae + an, ae) {
        if e > 0 {
            2
        } else {
            6
        }
    } else if e > 0 && n > 0 {
        1
    } else if e > 0 && n < 0 {
        3
    } else if e < 0 && n < 0 {
        5
    } else {
        7
    }
}

fn wrap_delta_exec(d: i64, size: i64) -> (res: i64)
    requires
        i32::MIN <= d <= i32::MAX,
        i32::MIN <= size <= i32::MAX,
    ensures
        res == wrap_delta(d as int, size as int),
{
    let ad = if d < 0 {
        -d
    } else {
        d
    };
    let half = if size >= 0 {
        size / 2
    } else {
        -((-size) / 2)
    };
    if ad > half {
        let s: i64 = if d < 0 {
            -1
        } else if d > 0 {
            1
        } else {
            0
        };
        d - s * size
    } else {
        d
    }
}

/// Calculates the relative direction (1-8, 0 for the same tile) from which
/// a receiver at `(rx, ry)` facing `rdir` hears a sound emitted at
/// `(sx, sy)` on a toroidal map of `w` x `h` tiles.
///
/// The offset to the source is first reduced to its shortest form on the
/// torus (minimum image convention), then assigned to one of the eight
/// 45-degree compass sectors, and finally turned by the receiver's facing
/// so that 1 is the tile in front of it.
pub fn compute_direction(rx: i32, ry: i32, rdir: Direction, sx: i32, sy: i32, w: i32, h: i32) -> (res:
    u32)
    requires
        !(rx == sx && ry == sy) ==> {
            &&& delta_fits(sx - rx, w as int)
            &&& delta_fits(sy - ry, h as int)
            &&& wrap_delta(sy - ry, h as int) != i32::MIN
        },
    ensures
        res == sound_direction(
            rx as int,
            ry as int,
            rdir,
            sx as int,
            sy as int,
            w as int,
            h as int,
        ),
        res <= 8,
{
    if rx == sx && ry == sy {
        return 0;
    }
    let dx = wrap_delta_exec(sx as i64 - rx as i64, w as i64);
    let dy = wrap_delta_exec(sy as i64 - ry as i64, h as i64);
    let e = dx as i128;
    let n = -(dy as i128);
    let sector = compass_sector_exec(e, n);
    let offset: i128 = match rdir {
        Direction::North => 0,
        Direction::East => 2,
        Direction::South => 4,
        Direction::West => 6,
    };
    let k = ((sector + 8 - offset) % 8) + 1;
    assert(((sector - offset) % 8) == ((sector + 8 - offset) % 8)) by (nonlinear_arith)
        requires
            0 <= sector < 8,
            0 <= offset < 8,
    ;
    k as u32
}


/// The commands whose execution needs the acting player to exist.
pub open spec fn needs_actor(command: CommandModel) -> bool {
    !(command is Incantation || command is ConnectNbr)
}

/// The free places of player `player_id`'s team: its slots plus its eggs.
pub open spec fn free_places(world: World, player_id: usize) -> nat {
    let team = actor(world, player_id).team@;
    slots_of(world.team_slots@, team) + eggs_of(world.eggs@, team)
}

/// The effect of the immediate part of a command of player `player_id`.
pub open spec fn init_effect(
    command: CommandModel,
    player_id: usize,
    old: World,
    new: World,
    res: Option<Seq<char>>,
) -> bool {
    match command {
        CommandModel::Incantation => res is Some && incantation::start_effect(player_id, old, new, res->0),
        CommandModel::Fork => {
            &&& res is None
            &&& new == (World { gui_events: new.gui_events, ..old })
            &&& new.events() == old.events().push(tagged_line("pfk"@, player_id as nat))
        },
        _ => {
            &&& res is None
            &&& new == old
        },
    }
}

/// The effect of the final part of a command of player `player_id` at time
/// `now`.
pub open spec fn execute_effect(
    command: CommandModel,
    player_id: usize,
    old: World,
    new: World,
    now: nat,
    res: Seq<char>,
) -> bool {
    match command {
        CommandModel::Forward | CommandModel::Right | CommandModel::Left | CommandModel::Eject =>
            movement::movement_effect(command, player_id, old, new, res),
        CommandModel::Look | CommandModel::Inventory | CommandModel::Take(_)
        | CommandModel::SetObject(_) | CommandModel::Fork => interaction::interaction_effect(
            command,
            player_id,
            old,
            new,
            now,
            res,
        ),
        CommandModel::Broadcast(_) => social::broadcast_effect(command, player_id, old, new, res),
        CommandModel::Incantation => incantation::completion_effect(player_id, old, new, res),
        CommandModel::ConnectNbr => {
            &&& new == old
            &&& res == if has_player(old.players@, player_id) {
                number_line(free_places(old, player_id))
            } else {
                "0\n"@
            }
        },
    }
}

/// Handles the immediate part of a command: `Incantation` answers at once
/// whether the ritual starts, and `Fork` is announced to the graphical
/// clients. Other commands have no immediate part.
pub fn init(command: &Command, player_id: usize, world: &mut World) -> (res: Option<String>)
    requires
        old(world).wf(),
    ensures
        final(world).same_queues(*old(world)),
        final(world).same_roster(*old(world)),
        final(world).wf(),
        init_effect(
            command@,
            player_id,
            *old(world),
            *final(world),
            match res {
                Some(s) => Some(s@),
                None => None,
            },
        ),
{
    match command {
        Command::Incantation => incantation::handle_start(player_id, world),
        Command::Fork => {
            let line = lines::tagged("pfk", player_id as u64);
            world.gui_events.push_back(line);
            assert(world.events() =~= old(world).events().push(line@));
            None
        },
        _ => None,
    }
}

/// The answer to `Connect_nbr`: the free places of the player's team.
fn connect_nbr(player_id: usize, world: &World) -> (res: String)
    requires
        world.wf(),
    ensures
        res@ == if has_player(world.players@, player_id) {
            number_line(free_places(*world, player_id))
        } else {
            "0\n"@
        },
{
    match world.find_player(player_id) {
        Some(i) => {
            let team = &world.players[i].team;
            let slots = match world.find_team(team) {
                Some(t) => world.team_slots[t].slots,
                None => 0,
            };
            let eggs = world.count_eggs(team);
            lines::number(slots as u128 + eggs as u128)
        },
        None => lines::fixed("0\n"),
    }
}

/// Handles the final part of a command once its delay has elapsed, at time
/// `now`.
pub fn execute_at(command: Command, player_id: usize, world: &mut World, now: u64) -> (res: String)
    requires
        old(world).wf(),
        needs_actor(command@) ==> has_player(old(world).players@, player_id),
    ensures
        final(world).same_queues(*old(world)),
        final(world).width == old(world).width,
        final(world).height == old(world).height,
        final(world).freq == old(world).freq,
        final(world).same_roster(*old(world)),
        final(world).wf(),
        execute_effect(command@, player_id, *old(world), *final(world), now as nat, res@),
{
    match command {
        Command::Forward | Command::Right | Command::Left | Command::Eject => {
            movement::execute(command, player_id, world)
        },
        Command::Look | Command::Inventory | Command::Take(_) | Command::SetObject(_) | Command::Fork => {
            interaction::execute_at(command, player_id, world, now)
        },
        Command::Broadcast(_) => social::execute(command, player_id, world),
        Command::Incantation => incantation::execute(player_id, world),
        Command::ConnectNbr => connect_nbr(player_id, world),
    }
}

/// Handles the final part of a command once its delay has elapsed.
pub fn execute(command: Command, player_id: usize, world: &mut World) -> (res: String)
    requires
        old(world).wf(),
        needs_actor(command@) ==> has_player(old(world).players@, player_id),
    ensures
        final(world).same_roster(*old(world)),
        final(world).wf(),
        exists|now: nat| execute_effect(command@, player_id, *old(world), *final(world), now, res@),
{
    let now = now_nanos();
    execute_at(command, player_id, world, now)
}
} // verus!
