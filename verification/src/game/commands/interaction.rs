//! Resource interaction commands: `Inventory`, `Look`, `Take`, `Set` and
//! `Fork`.

use vstd::prelude::*;
use crate::clock::now_nanos;
use crate::game::commands::{acting, actor, step_x, step_y};
use crate::game::player::{
    FOOD_UNIT_TIME, Direction, Player, food_left, right_of, sat_add, sat_sub, units_to_nanos,
};
use crate::game::world::{
    Egg, Resource, ResourceCounts, Tile, World, all_resources, lemma_same_shape_update,
    lemma_tile_index, player_index, players_on, resource_named, tile_content,
};
use crate::lines::{self, dec, enw_line, pin_line, tagged_value_line};
use crate::protocol::{Command, CommandModel};
use crate::text::{chars_of, push_decimal};

verus! {

/// `v + 1`, wrapping to 0 past `u32::MAX`.
pub open spec fn wrap_inc_u32(v: u32) -> u32 {
    if v < u32::MAX {
        (v + 1) as u32
    } else {
        0
    }
}

/// The counts that `pin` and `Inventory` report for a player: its stones,
/// and its food units left at `now`.
pub open spec fn shown_counts(p: Player, now: nat, freq: nat) -> ResourceCounts {
    p.inventory.with(Resource::Food, food_left(p.death_time as nat, now, freq))
}

/// The answer to `Inventory`: `[ l N, d N, s N, m N, p N, t N, f N ]`.
pub open spec fn inventory_line(c: ResourceCounts) -> Seq<char> {
    "[ l "@ + dec(c.linemate as nat) + ", d "@ + dec(c.deraumere as nat) + ", s "@ + dec(
        c.sibur as nat,
    ) + ", m "@ + dec(c.mendiane as nat) + ", p "@ + dec(c.phiras as nat) + ", t "@ + dec(
        c.thystame as nat,
    ) + ", f "@ + dec(c.food as nat) + " ]\n"@
}

/// The offset, relative to the looking player, of the tile at distance `d`
/// and lateral position `lat` (negative to the left) in its field of view.
pub open spec fn look_offset(dir: Direction, d: int, lat: int) -> (int, int) {
    match dir {
        Direction::North => (lat, -d),
        Direction::East => (d, lat),
        Direction::South => (-lat, d),
        Direction::West => (-d, -lat),
    }
}

/// The cells of the field of view of a player of level `level`, nearest row
/// first, each row from left to right: row `d` holds `2d + 1` cells.
pub open spec fn look_cells(level: nat) -> Seq<(int, int)>
    decreases level,
{
    let row = Seq::new((2 * level + 1) as nat, |j: int| (level as int, j - level));
    if level == 0 {
        row
    } else {
        look_cells((level - 1) as nat) + row
    }
}

/// The tile seen through cell `c` by a player at `(x, y)` facing `dir` on a
/// `w` x `h` map.
pub open spec fn view_tile(x: u32, y: u32, dir: Direction, w: u32, h: u32, c: (int, int)) -> (int, int) {
    let off = look_offset(dir, c.0, c.1);
    ((x + off.0) % (w as int), (y + off.1) % (h as int))
}

/// The content of the tile seen through cell `c` by player `p`.
pub open spec fn seen_content(world: World, p: Player, c: (int, int)) -> Seq<char> {
    let t = view_tile(p.x, p.y, p.direction, world.width, world.height, c);
    tile_content(
        players_on(world.players@, t.0 as u32, t.1 as u32),
        world.tile_at(t.0 as nat, t.1 as nat).resources,
    )
}

/// One step from column `z % w` (taken modulo `w`) moves `z` by one to the
/// east or west, and leaves it for the other two facings.
proof fn lemma_step_x_mod(z: int, dir: Direction, w: u32)
    requires
        w > 0,
    ensures
        step_x((z % (w as int)) as u32, dir, w) == (match dir {
            Direction::East => (z + 1) % (w as int),
            Direction::West => (z - 1) % (w as int),
            _ => z % (w as int),
        }),
{
    lemma_step_mod(z, w as int);
}

/// One step from row `z % h` (taken modulo `h`) moves `z` by one to the
/// south or north, and leaves it for the other two facings.
proof fn lemma_step_y_mod(z: int, dir: Direction, h: u32)
    requires
        h > 0,
    ensures
        step_y((z % (h as int)) as u32, dir, h) == (match dir {
            Direction::South => (z + 1) % (h as int),
            Direction::North => (z - 1) % (h as int),
            _ => z % (h as int),
        }),
{
    lemma_step_mod(z, h as int);
}

proof fn lemma_step_mod(z: int, m: int)
    requires
        0 < m <= u32::MAX,
    ensures
        0 <= z % m < m,
        ((z % m) + 1) % m == (z + 1) % m,
        z % m == 0 ==> (z - 1) % m == m - 1,
        z % m != 0 ==> (z - 1) % m == z % m - 1,
{
    vstd::arithmetic::div_mod::lemma_mod_bound(z, m);
    vstd::arithmetic::div_mod::lemma_add_mod_noop_right(1, z, m);
    vstd::arithmetic::div_mod::lemma_add_mod_noop_right(-1, z, m);
    if z % m == 0 {
        vstd::arithmetic::div_mod::lemma_fundamental_div_mod_converse(-1, m, -1, m - 1);
    } else {
        vstd::arithmetic::div_mod::lemma_small_mod((z % m - 1) as nat, m as nat);
    }
}

/// Each row of the field of view runs from the player's left to its right:
/// the first cell is the player's own tile, the same lateral position one
/// row further is one step ahead, and the next cell of a row is one step to
/// the player's right.
pub proof fn lemma_view_rows_left_to_right(x: u32, y: u32, dir: Direction, w: u32, h: u32, d: int, lat: int)
    requires
        x < w,
        y < h,
    ensures
        view_tile(x, y, dir, w, h, (0, 0)) == (x as int, y as int),
        ({
            let t = view_tile(x, y, dir, w, h, (d, lat));
            let ahead = view_tile(x, y, dir, w, h, (d + 1, lat));
            let next = view_tile(x, y, dir, w, h, (d, lat + 1));
            &&& ahead == (step_x(t.0 as u32, dir, w) as int, step_y(t.1 as u32, dir, h) as int)
            &&& next == (step_x(t.0 as u32, right_of(dir), w) as int, step_y(
                t.1 as u32,
                right_of(dir),
                h,
            ) as int)
        }),
{
    vstd::arithmetic::div_mod::lemma_small_mod(x as nat, w as nat);
    vstd::arithmetic::div_mod::lemma_small_mod(y as nat, h as nat);
    let off = look_offset(dir, d, lat);
    lemma_step_x_mod(x + off.0, dir, w);
    lemma_step_y_mod(y + off.1, dir, h);
    lemma_step_x_mod(x + off.0, right_of(dir), w);
    lemma_step_y_mod(y + off.1, right_of(dir), h);
}

/// The words `ws` joined by `, `.
pub open spec fn join_comma(ws: Seq<Seq<char>>) -> Seq<char>
    decreases ws.len(),
{
    if ws.len() == 0 {
        Seq::empty()
    } else if ws.len() == 1 {
        ws[0]
    } else {
        join_comma(ws.drop_last()) + ", "@ + ws.last()
    }
}

/// The answer to `Look` for player `p`: the contents of the tiles of its
/// field of view, in order, between brackets.
pub open spec fn look_line(world: World, p: Player) -> Seq<char> {
    "[ "@ + join_comma(look_cells(p.level as nat).map_values(|c: (int, int)| seen_content(world, p, c)))
        + " ]\n"@
}

/// What a successful `Take` of `r` does to the taker `p`.
pub open spec fn taken(p: Player, r: Resource, freq: nat) -> Player {
    if r == Resource::Food {
        Player {
            death_time: sat_add(p.death_time as nat, units_to_nanos(FOOD_UNIT_TIME as nat, freq)),
            ..p
        }
    } else {
        Player { inventory: p.inventory.with(r, wrap_inc_u32(p.inventory.count(r))), ..p }
    }
}

/// Whether `p` holds at least one unit of `r` at `now`.
pub open spec fn holds(p: Player, r: Resource, now: nat, freq: nat) -> bool {
    if r == Resource::Food {
        food_left(p.death_time as nat, now, freq) > 0
    } else {
        p.inventory.count(r) > 0
    }
}

/// What a successful `Set` of `r` does to the player `p`.
pub open spec fn dropped(p: Player, r: Resource, freq: nat) -> Player {
    if r == Resource::Food {
        Player {
            death_time: sat_sub(p.death_time as nat, units_to_nanos(FOOD_UNIT_TIME as nat, freq)),
            ..p
        }
    } else {
        Player { inventory: p.inventory.with(r, (p.inventory.count(r) - 1) as u32), ..p }
    }
}

/// The effect of an interaction command of player `player_id` at `now` on
/// `old`, giving `new` and the answer `res`.
pub open spec fn interaction_effect(
    command: CommandModel,
    player_id: usize,
    old: World,
    new: World,
    now: nat,
    res: Seq<char>,
) -> bool {
    let p = actor(old, player_id);
    let i = player_index(old.players@, player_id);
    let freq = old.freq as nat;
    let t = old.tile_index(p.x as nat, p.y as nat);
    match command {
        CommandModel::Inventory => {
            &&& res == inventory_line(shown_counts(p, now, freq))
            &&& new == old
        },
        CommandModel::Look => {
            &&& res == look_line(old, p)
            &&& new == old
        },
        CommandModel::Take(obj) => match resource_named(obj) {
            Some(r) if old.tiles@[t].resources.count(r) > 0 => {
                let q = taken(p, r, freq);
                let c = old.tiles@[t].resources.count(r);
                &&& res == "ok\n"@
                &&& new == (World {
                    tiles: new.tiles,
                    players: new.players,
                    gui_events: new.gui_events,
                    ..old
                })
                &&& new.tiles@ == old.tiles@.update(
                    t,
                    Tile { resources: old.tiles@[t].resources.with(r, (c - 1) as u32) },
                )
                &&& new.players@ == old.players@.update(i, q)
                &&& new.events() == old.events().push(
                    tagged_value_line("pgt"@, player_id as nat, crate::game::world::resource_index(r)),
                ).push(pin_line(player_id as nat, q.x as nat, q.y as nat, shown_counts(q, now, freq)))
            },
            _ => {
                &&& res == "ko\n"@
                &&& new == old
            },
        },
        CommandModel::SetObject(obj) => match resource_named(obj) {
            Some(r) if holds(p, r, now, freq) => {
                let q = dropped(p, r, freq);
                let c = old.tiles@[t].resources.count(r);
                &&& res == "ok\n"@
                &&& new == (World {
                    tiles: new.tiles,
                    players: new.players,
                    gui_events: new.gui_events,
                    ..old
                })
                &&& new.tiles@ == old.tiles@.update(
                    t,
                    Tile { resources: old.tiles@[t].resources.with(r, wrap_inc_u32(c)) },
                )
                &&& new.players@ == old.players@.update(i, q)
                &&& new.events() == old.events().push(
                    tagged_value_line("pdr"@, player_id as nat, crate::game::world::resource_index(r)),
                ).push(pin_line(player_id as nat, q.x as nat, q.y as nat, shown_counts(q, now, freq)))
            },
            _ => {
                &&& res == "ko\n"@
                &&& new == old
            },
        },
        CommandModel::Fork => {
            let e = old.eggs@.len() as int;
            &&& res == "ok\n"@
            &&& new == (World {
                eggs: new.eggs,
                next_egg_id: new.next_egg_id,
                gui_events: new.gui_events,
                ..old
            })
            &&& new.next_egg_id == crate::game::world::wrap_inc(old.next_egg_id)
            &&& new.eggs@.len() == old.eggs@.len() + 1
            &&& new.eggs@.drop_last() == old.eggs@
            &&& new.eggs@[e].id == old.next_egg_id
            &&& new.eggs@[e].x == p.x
            &&& new.eggs@[e].y == p.y
            &&& new.eggs@[e].team@ == p.team@
            &&& new.eggs@[e].death_time == u64::MAX
            &&& new.events() == old.events().push(
                enw_line(old.next_egg_id as nat, player_id as nat, p.x as nat, p.y as nat),
            )
        },
        _ => {
            &&& res == "ko\n"@
            &&& new == old
        },
    }
}

/// Dropping an object just taken puts everything back: the tile and the
/// players are as they were before the `Take`. A stone just taken can always
/// be dropped (food, only while some is left). This holds unless the count
/// of the stone was the largest `u32`, or the taker's time of death was too
/// close to the largest instant for one more unit of food.
pub proof fn lemma_set_undoes_take(
    w0: World,
    w1: World,
    w2: World,
    pid: usize,
    obj: Seq<char>,
    now1: nat,
    now2: nat,
    res2: Seq<char>,
)
    requires
        acting(w0, pid),
        w1.wf(),
        interaction_effect(CommandModel::Take(obj), pid, w0, w1, now1, "ok\n"@),
        interaction_effect(CommandModel::SetObject(obj), pid, w1, w2, now2, res2),
        match resource_named(obj) {
            Some(r) => if r == Resource::Food {
                actor(w0, pid).death_time + units_to_nanos(FOOD_UNIT_TIME as nat, w0.freq as nat)
                    <= u64::MAX
            } else {
                actor(w0, pid).inventory.count(r) < u32::MAX
            },
            None => true,
        },
    ensures
        resource_named(obj) != Some(Resource::Food) ==> res2 == "ok\n"@,
        res2 == "ok\n"@ ==> w2.tiles@ == w0.tiles@ && w2.players@ == w0.players@,
{
    reveal_strlit("ok\n");
    reveal_strlit("ko\n");
    let p = actor(w0, pid);
    let i = player_index(w0.players@, pid);
    let freq = w0.freq as nat;
    let t = w0.tile_index(p.x as nat, p.y as nat);
    crate::game::world::lemma_player_index(w0.players@, i);
    assert(w0.players@[i].id == pid);
    assert(p.x < w0.width && p.y < w0.height);
    lemma_tile_index(w0.width as nat, w0.height as nat, p.x as nat, p.y as nat);
    assert(0 <= t < w0.tiles@.len());
    assert("ok\n"@[1] == 'k' && "ko\n"@[1] == 'o');
    assert("ok\n"@ != "ko\n"@);
    let r = resource_named(obj)->0;
    let c = w0.tiles@[t].resources.count(r);
    assert(resource_named(obj) is Some && c > 0);
    let q = taken(p, r, freq);
    assert(w1.players@[i] == q);
    assert(q.id == pid);
    crate::game::world::lemma_player_index(w1.players@, i);
    assert(actor(w1, pid) == q);
    assert(w1.tile_index(q.x as nat, q.y as nat) == t);
    assert(w1.tiles@[t].resources.count(r) == (c - 1) as u32) by {
        crate::game::world::lemma_with_count(w0.tiles@[t].resources, r, (c - 1) as u32, r);
    }
    if r != Resource::Food {
        crate::game::world::lemma_with_count(p.inventory, r, wrap_inc_u32(p.inventory.count(r)), r);
        assert(holds(q, r, now2, w1.freq as nat));
    }
    if res2 == "ok\n"@ {
        assert(holds(q, r, now2, w1.freq as nat));
        let q2 = dropped(q, r, freq);
        assert(w2.players@ == w1.players@.update(i, q2));
        if r == Resource::Food {
            assert(q2 == p);
        } else {
            crate::game::world::lemma_with_count(p.inventory, r, wrap_inc_u32(p.inventory.count(r)), r);
            assert(q2.inventory =~= p.inventory) by {
                assert(q2.inventory == p.inventory.with(r, wrap_inc_u32(p.inventory.count(r))).with(
                    r,
                    p.inventory.count(r),
                ));
            }
            assert(q2 == p);
        }
        assert(w2.players@ =~= w0.players@);
        let tile0 = w0.tiles@[t].resources;
        assert(tile0.with(r, (c - 1) as u32).with(r, c) == tile0);
        assert(w2.tiles@ =~= w0.tiles@);
    }
}

/// The answer to `Inventory`.
fn inventory_text(c: &ResourceCounts) -> (res: String)
    ensures
        res@ == inventory_line(*c),
{
    let mut s = String::new();
    s.append("[ l ");
    push_decimal(&mut s, c.linemate as u128);
    s.append(", d ");
    push_decimal(&mut s, c.deraumere as u128);
    s.append(", s ");
    push_decimal(&mut s, c.sibur as u128);
    s.append(", m ");
    push_decimal(&mut s, c.mendiane as u128);
    s.append(", p ");
    push_decimal(&mut s, c.phiras as u128);
    s.append(", t ");
    push_decimal(&mut s, c.thystame as u128);
    s.append(", f ");
    push_decimal(&mut s, c.food as u128);
    s.append(" ]\n");
    assert(s@ =~= inventory_line(*c));
    s
}

/// The counts that `pin` and `Inventory` report for `p` at `now`.
pub fn shown(p: &Player, freq: u32, now: u64) -> (res: ResourceCounts)
    requires
        freq > 0,
    ensures
        res == shown_counts(*p, now as nat, freq as nat),
{
    let mut c = p.inventory;
    c.set(Resource::Food, p.food_count_at(freq, now));
    c
}

/// The answer to `Look` for player number `i`.
fn look(world: &World, i: usize) -> (res: String)
    requires
        world.wf(),
        i < world.players@.len(),
    ensures
        res@ == look_line(*world, world.players@[i as int]),
{
    let ghost p = world.players@[i as int];
    let px = world.players[i].x as i64;
    let py = world.players[i].y as i64;
    let dir = world.players[i].direction;
    let level = world.players[i].level as i64;
    let w = world.width as i64;
    let h = world.height as i64;
    let ghost contents = look_cells(p.level as nat).map_values(|c: (int, int)| seen_content(*world, p, c));
    let mut s = String::new();
    s.append("[ ");
    let ghost head = s@;
    let ghost mut done: Seq<Seq<char>> = Seq::empty();
    let mut first = true;
    let mut d: i64 = 0;
    while d <= level
        invariant
            world.wf(),
            i < world.players@.len(),
            w > 0 && h > 0,
            p == world.players@[i as int],
            px == p.x && py == p.y && dir == p.direction && level == p.level,
            w == world.width && h == world.height,
            0 <= d <= level + 1,
            first == (done.len() == 0),
            done == (if d == 0 {
                Seq::<(int, int)>::empty()
            } else {
                look_cells((d - 1) as nat)
            }).map_values(|c: (int, int)| seen_content(*world, p, c)),
            s@ == head + join_comma(done),
        decreases level + 1 - d,
    {
        let ghost row_base = done;
        let mut lat: i64 = -d;
        while lat <= d
            invariant
                world.wf(),
                i < world.players@.len(),
                w > 0 && h > 0,
                p == world.players@[i as int],
                px == p.x && py == p.y && dir == p.direction && level == p.level,
                w == world.width && h == world.height,
                0 <= d <= level,
                -d <= lat <= d + 1,
                first == (done.len() == 0),
                done == row_base + Seq::new((lat + d) as nat, |j: int| (d as int, j - d)).map_values(
                    |c: (int, int)| seen_content(*world, p, c),
                ),
                s@ == head + join_comma(done),
            decreases d + 1 - lat,
        {
            let (ox, oy) = match dir {
                Direction::North => (lat, -d),
                Direction::East => (d, lat),
                Direction::South => (-lat, d),
                Direction::West => (-d, -lat),
            };
            let ghost cell = (d as int, lat as int);
            assert(look_offset(p.direction, cell.0, cell.1) == (ox as int, oy as int));
            let tx = match (px + ox).checked_rem_euclid(w) {
                Some(v) => v,
                None => 0,
            };
            let ty = match (py + oy).checked_rem_euclid(h) {
                Some(v) => v,
                None => 0,
            };
            assert(tx == (px + ox) % (w as int));
            assert(ty == (py + oy) % (h as int));
            proof {
                lemma_tile_index(w as nat, h as nat, tx as nat, ty as nat);
            }
            let content = world.get_tile_content(tx as u32, ty as u32);
            assert(content@ == seen_content(*world, p, cell));
            let ghost prev = done;
            proof {
                reveal_strlit(", ");
            }
            if !first {
                s.append(", ");
            }
            s.append(content.as_str());
            first = false;
            proof {
                done = done.push(content@);
                assert(done.drop_last() =~= prev);
                if prev.len() == 0 {
                    assert(s@ =~= head + join_comma(done));
                } else {
                    assert(s@ =~= head + join_comma(done));
                }
                assert(Seq::new((lat + 1 + d) as nat, |j: int| (d as int, j - d)) =~= Seq::new(
                    (lat + d) as nat,
                    |j: int| (d as int, j - d),
                ).push(cell));
                assert(done =~= row_base + Seq::new((lat + 1 + d) as nat, |j: int| (d as int, j - d)).map_values(
                    |c: (int, int)| seen_content(*world, p, c),
                ));
            }
            lat = lat + 1;
        }
        proof {
            assert(look_cells(d as nat) =~= (if d == 0 {
                Seq::<(int, int)>::empty()
            } else {
                look_cells((d - 1) as nat)
            }) + Seq::new((2 * d + 1) as nat, |j: int| (d as int, j - d)));
            assert(done =~= look_cells(d as nat).map_values(|c: (int, int)| seen_content(*world, p, c)));
        }
        d = d + 1;
    }
    s.append(" ]\n");
    assert(s@ =~= look_line(*world, p));
    s
}


/// Executes the resource interaction commands (`Inventory`, `Look`, `Take`,
/// `Set`, `Fork`) of player `player_id` at time `now`; any other command
/// answers `ko` and changes nothing.
pub fn execute_at(command: Command, player_id: usize, world: &mut World, now: u64) -> (res: String)
    requires
        acting(*old(world), player_id),
    ensures
        final(world).same_roster(*old(world)),
        final(world).wf(),
        interaction_effect(command@, player_id, *old(world), *final(world), now as nat, res@),
{
    let i = world.find_player(player_id).unwrap();
    let ghost old_world = *world;
    let ghost p = world.players@[i as int];
    let freq = world.freq;
    let w = world.width;
    let h = world.height;
    let x = world.players[i].x;
    let y = world.players[i].y;
    proof {
        lemma_tile_index(w as nat, h as nat, x as nat, y as nat);
    }
    let idx = (y * w + x) as usize;
    match command {
        Command::Inventory => {
            let c = shown(&world.players[i], freq, now);
            inventory_text(&c)
        },
        Command::Look => look(world, i),
        Command::Take(obj) => {
            let cs = chars_of(obj.as_str());
            let r = match Resource::from_chars(&cs) {
                Some(r) => r,
                None => {
                    return lines::fixed("ko\n");
                },
            };
            let c = world.tiles[idx].resources.get(r);
            if c == 0 {
                return lines::fixed("ko\n");
            }
            let mut t = world.tiles[idx];
            t.resources.set(r, c - 1);
            world.tiles.set(idx, t);
            if r == Resource::Food {
                world.players[i].add_food(freq);
            } else {
                let v = world.players[i].inventory.get(r);
                let nv = if v < u32::MAX {
                    v + 1
                } else {
                    0
                };
                world.players[i].inventory.set(r, nv);
            }
            let ghost q = taken(p, r, freq as nat);
            assert(world.players@ =~= old_world.players@.update(i as int, q));
            let line1 = lines::tagged_value("pgt", player_id as u64, r.index() as u64);
            world.gui_events.push_back(line1);
            let shown_c = shown(&world.players[i], freq, now);
            let line2 = lines::pin(player_id, x, y, &shown_c);
            world.gui_events.push_back(line2);
            proof {
                assert(world.events() =~= old_world.events().push(line1@).push(line2@));
                let mid = World { tiles: world.tiles, ..old_world };
                lemma_same_shape_update(mid, *world, i as int, q);
            }
            lines::fixed("ok\n")
        },
        Command::SetObject(obj) => {
            let cs = chars_of(obj.as_str());
            let r = match Resource::from_chars(&cs) {
                Some(r) => r,
                None => {
                    return lines::fixed("ko\n");
                },
            };
            let holding = if r == Resource::Food {
                world.players[i].food_count_at(freq, now) > 0
            } else {
                world.players[i].inventory.get(r) > 0
            };
            if !holding {
                return lines::fixed("ko\n");
            }
            if r == Resource::Food {
                world.players[i].remove_food(freq);
            } else {
                let v = world.players[i].inventory.get(r);
                world.players[i].inventory.set(r, v - 1);
            }
            let ghost q = dropped(p, r, freq as nat);
            assert(world.players@ =~= old_world.players@.update(i as int, q));
            let c = world.tiles[idx].resources.get(r);
            let nc = if c < u32::MAX {
                c + 1
            } else {
                0
            };
            let mut t = world.tiles[idx];
            t.resources.set(r, nc);
            world.tiles.set(idx, t);
            let line1 = lines::tagged_value("pdr", player_id as u64, r.index() as u64);
            world.gui_events.push_back(line1);
            let shown_c = shown(&world.players[i], freq, now);
            let line2 = lines::pin(player_id, x, y, &shown_c);
            world.gui_events.push_back(line2);
            proof {
                assert(world.events() =~= old_world.events().push(line1@).push(line2@));
                let mid = World { players: world.players, ..old_world };
                lemma_same_shape_update(old_world, mid, i as int, q);
            }
            lines::fixed("ok\n")
        },
        Command::Fork => {
            let e = world.next_egg_id;
            let team = world.players[i].team.clone();
            world.eggs.push(Egg { id: e, x, y, team, death_time: u64::MAX });
            world.next_egg_id = if e < usize::MAX {
                e + 1
            } else {
                0
            };
            let line = lines::enw(e, player_id, x, y);
            world.gui_events.push_back(line);
            proof {
                assert(world.events() =~= old_world.events().push(line@));
                assert(world.eggs@.drop_last() =~= old_world.eggs@);
            }
            lines::fixed("ok\n")
        },
        _ => lines::fixed("ko\n"),
    }
}

/// Executes resource interaction commands (`Inventory`, `Look`, `Take`,
/// `Set`, `Fork`) at the current time.
pub fn execute(command: Command, player_id: usize, world: &mut World) -> (res: String)
    requires
        acting(*old(world), player_id),
    ensures
        final(world).same_roster(*old(world)),
        final(world).wf(),
        exists|now: nat| interaction_effect(command@, player_id, *old(world), *final(world), now, res@),
{
    let now = now_nanos();
    execute_at(command, player_id, world, now)
}
} // verus!
