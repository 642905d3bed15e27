//! The elevation ritual (`Incantation`): the requirement table, the check
//! made when the command is received, and the check and level-up made when
//! it completes.

use vstd::prelude::*;
use crate::game::commands::{acting, actor};
use crate::game::player::Player;
use crate::game::world::{
    Incantation, Resource, ResourceCounts, Tile, World, has_player, has_ritual, lemma_ritual_index,
    lemma_tile_index, player_index, ritual_index, ritual_of, rituals_distinct,
};
use crate::lines::{self, pic_line, pie_line, tagged_value_line, value_line};

verus! {

/// What an elevation from one level needs: players of that level on the
/// tile, and stones on the tile.
#[derive(Debug, Clone, Copy, PartialEq, Eq, Structural)]
pub struct Req {
    pub nb_players: u32,
    pub linemate: u32,
    pub deraumere: u32,
    pub sibur: u32,
    pub mendiane: u32,
    pub phiras: u32,
    pub thystame: u32,
}

/// The elevation table: what leaving `level` requires (none from level 8).
pub open spec fn requirement(level: u32) -> Option<Req> {
    if level == 1 {
        Some(Req { nb_players: 1, linemate: 1, deraumere: 0, sibur: 0, mendiane: 0, phiras: 0, thystame: 0 })
    } else if level == 2 {
        Some(Req { nb_players: 2, linemate: 1, deraumere: 1, sibur: 1, mendiane: 0, phiras: 0, thystame: 0 })
    } else if level == 3 {
        Some(Req { nb_players: 2, linemate: 2, deraumere: 0, sibur: 1, mendiane: 0, phiras: 2, thystame: 0 })
    } else if level == 4 {
        Some(Req { nb_players: 4, linemate: 1, deraumere: 1, sibur: 2, mendiane: 0, phiras: 1, thystame: 0 })
    } else if level == 5 {
        Some(Req { nb_players: 4, linemate: 1, deraumere: 2, sibur: 1, mendiane: 3, phiras: 0, thystame: 0 })
    } else if level == 6 {
        Some(Req { nb_players: 6, linemate: 1, deraumere: 2, sibur: 3, mendiane: 0, phiras: 1, thystame: 0 })
    } else if level == 7 {
        Some(Req { nb_players: 6, linemate: 2, deraumere: 2, sibur: 2, mendiane: 2, phiras: 2, thystame: 1 })
    } else {
        None
    }
}

/// Only the levels 1 to 7 can be left, and the players an elevation gathers
/// come in pairs from level 2 on: one player leaves level 1, two leave levels
/// 2 and 3, four levels 4 and 5, six levels 6 and 7.
pub proof fn lemma_elevation_players(level: u32)
    ensures
        requirement(level) is Some <==> 1 <= level <= 7,
        requirement(level) matches Some(req) ==> req.nb_players == if level == 1 {
            1
        } else {
            2 * (level / 2)
        },
{
}

/// The elevation table, row by row: for leaving level `l`, row `l - 1`
/// lists the players, then linemate, deraumere, sibur, mendiane, phiras and
/// thystame.
pub proof fn lemma_elevation_table(level: u32)
    requires
        1 <= level <= 7,
    ensures
        ({
            let rows: Seq<(u32, u32, u32, u32, u32, u32, u32)> = seq![
                (1, 1, 0, 0, 0, 0, 0),
                (2, 1, 1, 1, 0, 0, 0),
                (2, 2, 0, 1, 0, 2, 0),
                (4, 1, 1, 2, 0, 1, 0),
                (4, 1, 2, 1, 3, 0, 0),
                (6, 1, 2, 3, 0, 1, 0),
                (6, 2, 2, 2, 2, 2, 1),
            ];
            let row = rows[level - 1];
            requirement(level) == Some(
                Req {
                    nb_players: row.0,
                    linemate: row.1,
                    deraumere: row.2,
                    sibur: row.3,
                    mendiane: row.4,
                    phiras: row.5,
                    thystame: row.6,
                },
            )
        }),
{
}

/// The stones lying on a tile cover what `req` asks for.
pub open spec fn enough_stones(c: ResourceCounts, req: Req) -> bool {
    &&& c.linemate >= req.linemate
    &&& c.deraumere >= req.deraumere
    &&& c.sibur >= req.sibur
    &&& c.mendiane >= req.mendiane
    &&& c.phiras >= req.phiras
    &&& c.thystame >= req.thystame
}

/// `a - b`, or 0 when `b > a`.
pub open spec fn minus(a: u32, b: u32) -> u32 {
    if a >= b {
        (a - b) as u32
    } else {
        0
    }
}

/// The counts of a tile once the stones of `req` are taken from it.
pub open spec fn consumed(c: ResourceCounts, req: Req) -> ResourceCounts {
    ResourceCounts {
        linemate: minus(c.linemate, req.linemate),
        deraumere: minus(c.deraumere, req.deraumere),
        sibur: minus(c.sibur, req.sibur),
        mendiane: minus(c.mendiane, req.mendiane),
        phiras: minus(c.phiras, req.phiras),
        thystame: minus(c.thystame, req.thystame),
        ..c
    }
}

/// `q` stands on `(x, y)` at level `level`.
pub open spec fn joins_ritual(q: Player, x: u32, y: u32, level: u32) -> bool {
    q.x == x && q.y == y && q.level == level
}

/// How many players of `ps` stand on `(x, y)` at level `level`.
pub open spec fn same_level_on(ps: Seq<Player>, x: u32, y: u32, level: u32) -> nat
    decreases ps.len(),
{
    if ps.len() == 0 {
        0
    } else {
        same_level_on(ps.drop_last(), x, y, level) + if joins_ritual(ps.last(), x, y, level) {
            1nat
        } else {
            0nat
        }
    }
}

/// The ids of the players of `ps` standing on `(x, y)` at level `level`, in
/// order.
pub open spec fn same_level_ids(ps: Seq<Player>, x: u32, y: u32, level: u32) -> Seq<usize>
    decreases ps.len(),
{
    if ps.len() == 0 {
        Seq::empty()
    } else {
        same_level_ids(ps.drop_last(), x, y, level) + if joins_ritual(ps.last(), x, y, level) {
            seq![ps.last().id]
        } else {
            Seq::empty()
        }
    }
}

/// The `plv` events of the players of `ps` raised from `level` on `(x, y)`.
pub open spec fn level_up_events(ps: Seq<Player>, x: u32, y: u32, level: u32) -> Seq<Seq<char>>
    decreases ps.len(),
{
    if ps.len() == 0 {
        Seq::empty()
    } else {
        level_up_events(ps.drop_last(), x, y, level) + if joins_ritual(ps.last(), x, y, level) {
            seq![tagged_value_line("plv"@, ps.last().id as nat, (level + 1) as nat)]
        } else {
            Seq::empty()
        }
    }
}

/// A ritual at level `level` may proceed on `(x, y)` of `world`: the table
/// has an entry for that level, the stones are there and so are enough
/// players of that level.
pub open spec fn ritual_ready(world: World, x: u32, y: u32, level: u32) -> bool {
    match requirement(level) {
        Some(req) => {
            &&& enough_stones(world.tile_at(x as nat, y as nat).resources, req)
            &&& same_level_on(world.players@, x, y, level) >= req.nb_players
        },
        None => false,
    }
}

/// The incantation table `rs` with the record of player `id` set to `v`.
pub open spec fn ritual_set(rs: Seq<Incantation>, id: usize, v: Option<u32>) -> Seq<Incantation> {
    if has_ritual(rs, id) {
        rs.update(ritual_index(rs, id), Incantation { player_id: id, level: v })
    } else {
        rs.push(Incantation { player_id: id, level: v })
    }
}

/// The incantation table `rs` without the record of player `id`.
pub open spec fn ritual_cleared(rs: Seq<Incantation>, id: usize) -> Seq<Incantation> {
    if has_ritual(rs, id) {
        rs.remove(ritual_index(rs, id))
    } else {
        rs
    }
}

/// Returns the requirements for the ritual based on the player's level.
pub fn get_requirements(level: u32) -> (res: Option<Req>)
    ensures
        res == requirement(level),
{
    match level {
        1 => Some(Req { nb_players: 1, linemate: 1, deraumere: 0, sibur: 0, mendiane: 0, phiras: 0, thystame: 0 }),
        2 => Some(Req { nb_players: 2, linemate: 1, deraumere: 1, sibur: 1, mendiane: 0, phiras: 0, thystame: 0 }),
        3 => Some(Req { nb_players: 2, linemate: 2, deraumere: 0, sibur: 1, mendiane: 0, phiras: 2, thystame: 0 }),
        4 => Some(Req { nb_players: 4, linemate: 1, deraumere: 1, sibur: 2, mendiane: 0, phiras: 1, thystame: 0 }),
        5 => Some(Req { nb_players: 4, linemate: 1, deraumere: 2, sibur: 1, mendiane: 3, phiras: 0, thystame: 0 }),
        6 => Some(Req { nb_players: 6, linemate: 1, deraumere: 2, sibur: 3, mendiane: 0, phiras: 1, thystame: 0 }),
        7 => Some(Req { nb_players: 6, linemate: 2, deraumere: 2, sibur: 2, mendiane: 2, phiras: 2, thystame: 1 }),
        _ => None,
    }
}

/// Checks if the tile contains enough of each resource stone.
pub fn check_resources(tile: &Tile, req: &Req) -> (res: bool)
    ensures
        res == enough_stones(tile.resources, *req),
{
    let c = &tile.resources;
    c.linemate >= req.linemate && c.deraumere >= req.deraumere && c.sibur >= req.sibur
        && c.mendiane >= req.mendiane && c.phiras >= req.phiras && c.thystame >= req.thystame
}

fn take_stones(count: u32, qty: u32) -> (res: u32)
    ensures
        res == minus(count, qty),
{
    if count >= qty {
        count - qty
    } else {
        0
    }
}

/// Removes the required amount of stones from the tile.
pub fn consume_resources(tile: &mut Tile, req: &Req)
    ensures
        final(tile).resources == consumed(old(tile).resources, *req),
{
    tile.resources.linemate = take_stones(tile.resources.linemate, req.linemate);
    tile.resources.deraumere = take_stones(tile.resources.deraumere, req.deraumere);
    tile.resources.sibur = take_stones(tile.resources.sibur, req.sibur);
    tile.resources.mendiane = take_stones(tile.resources.mendiane, req.mendiane);
    tile.resources.phiras = take_stones(tile.resources.phiras, req.phiras);
    tile.resources.thystame = take_stones(tile.resources.thystame, req.thystame);
}

/// Counts the players of a given level standing on a given tile (capped at
/// `u32::MAX`).
pub fn count_players_on_tile(world: &World, x: u32, y: u32, level: u32) -> (res: u32)
    ensures
        res == if same_level_on(world.players@, x, y, level) <= u32::MAX {
            same_level_on(world.players@, x, y, level) as u32
        } else {
            u32::MAX
        },
{
    let mut count: u64 = 0;
    let mut i: usize = 0;
    while i < world.players.len()
        invariant
            i <= world.players@.len(),
            count == same_level_on(world.players@.take(i as int), x, y, level),
            count <= i,
        decreases world.players.len() - i,
    {
        assert(world.players@.take(i + 1).drop_last() =~= world.players@.take(i as int));
        let p = &world.players[i];
        if p.x == x && p.y == y && p.level == level {
            count = count + 1;
        }
        i = i + 1;
    }
    assert(world.players@.take(world.players@.len() as int) =~= world.players@);
    if count <= u32::MAX as u64 {
        count as u32
    } else {
        u32::MAX
    }
}

/// The ids of the players of a given level on a given tile, in order.
fn ids_on_tile(world: &World, x: u32, y: u32, level: u32) -> (res: Vec<usize>)
    ensures
        res@ == same_level_ids(world.players@, x, y, level),
{
    let mut ids: Vec<usize> = Vec::new();
    let mut i: usize = 0;
    while i < world.players.len()
        invariant
            i <= world.players@.len(),
            ids@ == same_level_ids(world.players@.take(i as int), x, y, level),
        decreases world.players.len() - i,
    {
        assert(world.players@.take(i + 1).drop_last() =~= world.players@.take(i as int));
        let p = &world.players[i];
        if p.x == x && p.y == y && p.level == level {
            ids.push(p.id);
        }
        i = i + 1;
        assert(ids@ =~= same_level_ids(world.players@.take(i as int), x, y, level));
    }
    assert(world.players@.take(world.players@.len() as int) =~= world.players@);
    ids
}

/// Records the start of player `id`'s incantation (replacing any earlier
/// record).
fn record_ritual(world: &mut World, id: usize, level: Option<u32>)
    requires
        old(world).wf(),
    ensures
        final(world).wf(),
        *final(world) == (World { incantations: final(world).incantations, ..*old(world) }),
        final(world).incantations@ == ritual_set(old(world).incantations@, id, level),
{
    let mut i: usize = 0;
    while i < world.incantations.len()
        invariant
            i <= world.incantations@.len(),
            *world == *old(world),
            world.wf(),
            forall|j: int| 0 <= j < i ==> world.incantations@[j].player_id != id,
        decreases world.incantations.len() - i,
    {
        if world.incantations[i].player_id == id {
            proof {
                lemma_ritual_index(world.incantations@, i as int);
            }
            world.incantations.set(i, Incantation { player_id: id, level });
            assert forall|a: int, b: int|
                0 <= a < world.incantations@.len() && 0 <= b < world.incantations@.len() && a != b
                implies #[trigger] world.incantations@[a].player_id
                != #[trigger] world.incantations@[b].player_id by {
                assert(old(world).incantations@[a].player_id != old(world).incantations@[b].player_id);
            }
            return;
        }
        i = i + 1;
    }
    assert(!has_ritual(world.incantations@, id));
    world.incantations.push(Incantation { player_id: id, level });
    assert forall|a: int, b: int|
        0 <= a < world.incantations@.len() && 0 <= b < world.incantations@.len() && a != b
        implies #[trigger] world.incantations@[a].player_id
        != #[trigger] world.incantations@[b].player_id by {
        if a < old(world).incantations@.len() && b < old(world).incantations@.len() {
            assert(old(world).incantations@[a].player_id != old(world).incantations@[b].player_id);
        }
    }
}

/// Takes the record of player `id`'s incantation out of the table.
fn take_ritual(world: &mut World, id: usize) -> (res: Option<Option<u32>>)
    requires
        old(world).wf(),
    ensures
        final(world).wf(),
        res == ritual_of(old(world).incantations@, id),
        *final(world) == (World { incantations: final(world).incantations, ..*old(world) }),
        final(world).incantations@ == ritual_cleared(old(world).incantations@, id),
{
    let mut i: usize = 0;
    while i < world.incantations.len()
        invariant
            i <= world.incantations@.len(),
            *world == *old(world),
            world.wf(),
            forall|j: int| 0 <= j < i ==> world.incantations@[j].player_id != id,
        decreases world.incantations.len() - i,
    {
        if world.incantations[i].player_id == id {
            proof {
                lemma_ritual_index(world.incantations@, i as int);
            }
            let r = world.incantations.remove(i);
            assert forall|a: int, b: int|
                0 <= a < world.incantations@.len() && 0 <= b < world.incantations@.len() && a != b
                implies #[trigger] world.incantations@[a].player_id
                != #[trigger] world.incantations@[b].player_id by {
                let a0 = if a < i { a } else { a + 1 };
                let b0 = if b < i { b } else { b + 1 };
                assert(world.incantations@[a] == old(world).incantations@[a0]);
                assert(world.incantations@[b] == old(world).incantations@[b0]);
            }
            return Some(r.level);
        }
        i = i + 1;
    }
    assert(!has_ritual(world.incantations@, id));
    None
}

/// The effect of the start of player `player_id`'s incantation on `old`,
/// giving `new` and the immediate answer `res`.
pub open spec fn start_effect(player_id: usize, old: World, new: World, res: Seq<char>) -> bool {
        if !has_player(old.players@, player_id) {
            &&& res == "ko\n"@
            &&& new == old
        } else {
            let p = actor(old, player_id);
            if requirement(p.level) is None {
                &&& res == "ko\n"@
                &&& new == old
            } else if ritual_ready(old, p.x, p.y, p.level) {
                &&& res == "Elevation underway\n"@
                &&& new.incantations@ == ritual_set(
                    old.incantations@,
                    player_id,
                    Some(p.level),
                )
                &&& new.events() == old.events().push(
                    pic_line(
                        p.x as nat,
                        p.y as nat,
                        p.level as nat,
                        same_level_ids(old.players@, p.x, p.y, p.level),
                    ),
                )
                &&& new == (World {
                    incantations: new.incantations,
                    gui_events: new.gui_events,
                    ..old
                })
            } else {
                &&& res == "ko\n"@
                &&& new.incantations@ == ritual_set(
                    old.incantations@,
                    player_id,
                    None,
                )
                &&& new == (World {
                    incantations: new.incantations,
                    ..old
                })
            }
        }
}

/// Handles the start of an incantation ritual: answers
/// `Elevation underway` (and announces `pic` to the graphical clients) when
/// the ritual can proceed, `ko` otherwise, and records the outcome for the
/// completion check.
pub fn handle_start(player_id: usize, world: &mut World) -> (res: Option<String>)
    requires
        old(world).wf(),
    ensures
        final(world).same_roster(*old(world)),
        final(world).wf(),
        res is Some,
        start_effect(player_id, *old(world), *final(world), res->0@),
{
    let i = match world.find_player(player_id) {
        Some(i) => i,
        None => {
            return Some(lines::fixed("ko\n"));
        },
    };
    let x = world.players[i].x;
    let y = world.players[i].y;
    let level = world.players[i].level;
    let req = match get_requirements(level) {
        Some(r) => r,
        None => {
            return Some(lines::fixed("ko\n"));
        },
    };
    proof {
        lemma_tile_index(world.width as nat, world.height as nat, x as nat, y as nat);
    }
    let stones = check_resources(world.get_tile(x, y), &req);
    let count = count_players_on_tile(world, x, y, level);
    if stones && count >= req.nb_players {
        let ids = ids_on_tile(world, x, y, level);
        record_ritual(world, player_id, Some(level));
        let line = lines::pic(x, y, level, &ids);
        world.gui_events.push_back(line);
        assert(world.events() =~= old(world).events().push(line@));
        Some(lines::fixed("Elevation underway\n"))
    } else {
        record_ritual(world, player_id, None);
        Some(lines::fixed("ko\n"))
    }
}


/// What the completion of a ritual started at level `from` on `(x, y)` does
/// to player `q`.
pub open spec fn lifted(q: Player, x: u32, y: u32, from: u32) -> Player {
    if joins_ritual(q, x, y, from) {
        Player { level: (from + 1) as u32, ..q }
    } else {
        q
    }
}

/// The level that the completion of player `id`'s incantation checks: the
/// level recorded at its start, or else the player's current level (1 for
/// a missing player).
pub open spec fn start_level(world: World, id: usize) -> u32 {
    match ritual_of(world.incantations@, id) {
        Some(Some(l)) => l,
        _ => if has_player(world.players@, id) {
            actor(world, id).level
        } else {
            1
        },
    }
}

/// The effect of the completion of player `player_id`'s incantation on
/// `old`, giving `new` and the answer `res`.
pub open spec fn completion_effect(player_id: usize, old: World, new: World, res: Seq<char>) -> bool {
    &&& new.incantations@ == ritual_cleared(old.incantations@, player_id)
    &&& {
            let cleared = World { incantations: new.incantations, ..old };
            let from = start_level(old, player_id);
            if ritual_of(old.incantations@, player_id) == Some(None::<u32>) {
                &&& res == Seq::<char>::empty()
                &&& new == cleared
            } else if !has_player(old.players@, player_id) {
                &&& res == "ko\n"@
                &&& new == cleared
            } else {
                let p = actor(old, player_id);
                if p.level > from {
                    &&& res == value_line("Current level:"@, p.level as nat)
                    &&& new == cleared
                } else if requirement(from) is None {
                    &&& res == "ko\n"@
                    &&& new == cleared
                } else if ritual_ready(old, p.x, p.y, from) {
                    let t = old.tile_index(p.x as nat, p.y as nat);
                    &&& res == value_line("Current level:"@, (from + 1) as nat)
                    &&& new == (World {
                        tiles: new.tiles,
                        players: new.players,
                        gui_events: new.gui_events,
                        ..cleared
                    })
                    &&& new.tiles@ == old.tiles@.update(
                        t,
                        Tile { resources: consumed(old.tiles@[t].resources, requirement(from)->0) },
                    )
                    &&& new.players@.len() == old.players@.len()
                    &&& forall|j: int|
                        0 <= j < old.players@.len() ==> #[trigger] new.players@[j]
                            == lifted(old.players@[j], p.x, p.y, from)
                    &&& new.events() == old.events().push(
                        pie_line(p.x as nat, p.y as nat, 1),
                    ) + level_up_events(old.players@, p.x, p.y, from)
                } else {
                    &&& res == "ko\n"@
                    &&& new == (World { gui_events: new.gui_events, ..cleared })
                    &&& new.events() == old.events().push(
                        pie_line(p.x as nat, p.y as nat, 0),
                    )
                }
            }
    }
}

/// Executes the final logic of an incantation ritual after its delay:
/// checks the tile again and, when the ritual still holds, consumes the
/// stones and raises every participating player by one level.
pub fn execute(player_id: usize, world: &mut World) -> (res: String)
    requires
        old(world).wf(),
    ensures
        final(world).same_roster(*old(world)),
        final(world).wf(),
        completion_effect(player_id, *old(world), *final(world), res@),
{
    let ghost old_world = *world;
    let record = take_ritual(world, player_id);
    let ghost cleared = *world;
    let found = world.find_player(player_id);
    let from = match record {
        Some(Some(l)) => l,
        Some(None) => {
            return String::new();
        },
        None => match found {
            Some(i) => world.players[i].level,
            None => 1,
        },
    };
    let i = match found {
        Some(i) => i,
        None => {
            return lines::fixed("ko\n");
        },
    };
    let x = world.players[i].x;
    let y = world.players[i].y;
    let level = world.players[i].level;
    if level > from {
        return lines::value("Current level:", level as u64);
    }
    let req = match get_requirements(from) {
        Some(r) => r,
        None => {
            return lines::fixed("ko\n");
        },
    };
    proof {
        lemma_tile_index(world.width as nat, world.height as nat, x as nat, y as nat);
    }
    let stones = check_resources(world.get_tile(x, y), &req);
    let count = count_players_on_tile(world, x, y, from);
    if stones && count >= req.nb_players {
        let idx = (y * world.width + x) as usize;
        let mut t = world.tiles[idx];
        consume_resources(&mut t, &req);
        world.tiles.set(idx, t);
        let line = lines::pie(x, y, 1);
        world.gui_events.push_back(line);
        let ghost head = world.events();
        let ghost before = world.players@;
        let ghost after_tiles = *world;
        assert(head =~= old_world.events().push(line@));
        let n = world.players.len();
        let mut j: usize = 0;
        while j < n
            invariant
                n == world.players@.len(),
                n == before.len(),
                j <= n,
                from < 8,
                forall|k: int| 0 <= k < j ==> #[trigger] world.players@[k] == lifted(before[k], x, y, from),
                forall|k: int| j <= k < n ==> #[trigger] world.players@[k] == before[k],
                world.events() == head + level_up_events(before.take(j as int), x, y, from),
                *world == (World { players: world.players, gui_events: world.gui_events, ..after_tiles }),
            decreases n - j,
        {
            assert(before.take(j + 1).drop_last() =~= before.take(j as int));
            let ghost ev = world.events();
            assert(world.players@[j as int] == before[j as int]);
            if world.players[j].x == x && world.players[j].y == y && world.players[j].level == from {
                world.players[j].level = from + 1;
                let pid = world.players[j].id;
                let l = lines::tagged_value("plv", pid as u64, (from + 1) as u64);
                world.gui_events.push_back(l);
                assert(world.events() =~= ev.push(l@));
            } else {
                assert(world.events() =~= ev);
            }
            j = j + 1;
            assert(world.events() =~= head + level_up_events(before.take(j as int), x, y, from));
        }
        assert(before.take(n as int) =~= before);
        proof {
            assert(before == cleared.players@);
            let mid = World { tiles: world.tiles, gui_events: world.gui_events, ..cleared };
            assert(mid.wf());
            assert forall|k: int| 0 <= k < world.players@.len() implies {
                &&& (#[trigger] world.players@[k]).id == mid.players@[k].id
                &&& world.players@[k].x < world.width
                &&& world.players@[k].y < world.height
            } by {
                assert(world.players@[k] == lifted(before[k], x, y, from));
                assert(mid.players@[k] == before[k]);
            }
            assert(world.same_shape(mid));
            crate::game::world::lemma_wf_same_shape(mid, *world);
        }
        lines::value("Current level:", (from + 1) as u64)
    } else {
        let line = lines::pie(x, y, 0);
        world.gui_events.push_back(line);
        assert(world.events() =~= old_world.events().push(line@));
        lines::fixed("ko\n")
    }
}
} // verus!
