//! The game world: the toroidal Trantor map and all its state.
//!
//! Holds the [`World`] aggregate: the grid of [`Tile`]s (indexed
//! `x + y * width`), the live [`Player`]s, the pending [`Egg`]s, the
//! per-team spawn slots, the running incantations and the queue of GUI
//! events to broadcast.

use std::collections::VecDeque;
use vstd::prelude::*;
use crate::clock::{now_nanos, random_below};
use crate::game::player::{Direction, Player, sat_add, time_units_to_nanos, units_to_nanos};
use crate::lines;
use crate::text::{chars_eq, chars_of, join_space};

verus! {

/// A resource (food and the six elevation stones) that can lie on a tile.
#[derive(Debug, Clone, Copy, PartialEq, Eq, Hash, Structural)]
pub enum Resource {
    Food,
    Linemate,
    Deraumere,
    Sibur,
    Mendiane,
    Phiras,
    Thystame,
}

/// Every resource, in canonical order (food first).
pub open spec fn all_resources() -> Seq<Resource> {
    seq![
        Resource::Food,
        Resource::Linemate,
        Resource::Deraumere,
        Resource::Sibur,
        Resource::Mendiane,
        Resource::Phiras,
        Resource::Thystame,
    ]
}

/// The position of a resource in the canonical order; also its number in
/// the GUI protocol (`pgt`, `pdr`).
pub open spec fn resource_index(r: Resource) -> nat {
    match r {
        Resource::Food => 0,
        Resource::Linemate => 1,
        Resource::Deraumere => 2,
        Resource::Sibur => 3,
        Resource::Mendiane => 4,
        Resource::Phiras => 5,
        Resource::Thystame => 6,
    }
}

/// The lowercase protocol name of a resource.
pub open spec fn resource_name(r: Resource) -> Seq<char> {
    match r {
        Resource::Food => "food"@,
        Resource::Linemate => "linemate"@,
        Resource::Deraumere => "deraumere"@,
        Resource::Sibur => "sibur"@,
        Resource::Mendiane => "mendiane"@,
        Resource::Phiras => "phiras"@,
        Resource::Thystame => "thystame"@,
    }
}

/// The resource whose protocol name is `s`, if any.
pub open spec fn resource_named(s: Seq<char>) -> Option<Resource> {
    if s == "food"@ {
        Some(Resource::Food)
    } else if s == "linemate"@ {
        Some(Resource::Linemate)
    } else if s == "deraumere"@ {
        Some(Resource::Deraumere)
    } else if s == "sibur"@ {
        Some(Resource::Sibur)
    } else if s == "mendiane"@ {
        Some(Resource::Mendiane)
    } else if s == "phiras"@ {
        Some(Resource::Phiras)
    } else if s == "thystame"@ {
        Some(Resource::Thystame)
    } else {
        None
    }
}

/// Reading a resource's protocol name gives back that resource, and a name
/// that is read is the protocol name of what it gives.
pub proof fn lemma_resource_names_read_back(r: Resource, s: Seq<char>)
    ensures
        resource_named(resource_name(r)) == Some(r),
        resource_named(s) matches Some(q) ==> s == resource_name(q),
{
    reveal_strlit("food");
    reveal_strlit("linemate");
    reveal_strlit("deraumere");
    reveal_strlit("sibur");
    reveal_strlit("mendiane");
    reveal_strlit("phiras");
    reveal_strlit("thystame");
    assert("food"@.len() == 4 && "sibur"@.len() == 5 && "phiras"@.len() == 6);
    assert("deraumere"@.len() == 9);
    assert("linemate"@.len() == 8 && "linemate"@[0] == 'l');
    assert("mendiane"@.len() == 8 && "mendiane"@[0] == 'm');
    assert("thystame"@.len() == 8 && "thystame"@[0] == 't');
}

/// Spawn density of a resource, in hundredths of a unit per tile
/// (food 0.5, linemate 0.3, deraumere 0.15, sibur 0.1, mendiane 0.1,
/// phiras 0.08, thystame 0.05).
pub open spec fn density_percent(r: Resource) -> nat {
    match r {
        Resource::Food => 50,
        Resource::Linemate => 30,
        Resource::Deraumere => 15,
        Resource::Sibur => 10,
        Resource::Mendiane => 10,
        Resource::Phiras => 8,
        Resource::Thystame => 5,
    }
}

/// How many units of `r` the map keeps alive: `ceil(tiles * density)`.
pub open spec fn target_quantity(tiles: nat, r: Resource) -> nat {
    (tiles * density_percent(r) + 99) / 100
}

impl Resource {
    /// Every resource, in canonical order (food first).
    pub fn all() -> (res: &'static [Resource])
        ensures
            res@ == all_resources(),
    {
        let res: &'static [Resource] = &[
            Resource::Food,
            Resource::Linemate,
            Resource::Deraumere,
            Resource::Sibur,
            Resource::Mendiane,
            Resource::Phiras,
            Resource::Thystame,
        ];
        assert(res@ =~= all_resources());
        res
    }

    /// Parses a resource from its lowercase protocol name.
    pub fn from_str(s: &str) -> (res: Option<Resource>)
        ensures
            res == resource_named(s@),
    {
        let cs = chars_of(s);
        Resource::from_chars(&cs)
    }

    /// Parses a resource from the characters of its protocol name.
    pub fn from_chars(cs: &Vec<char>) -> (res: Option<Resource>)
        ensures
            res == resource_named(cs@),
    {
        if chars_eq(cs, &chars_of("food")) {
            Some(Resource::Food)
        } else if chars_eq(cs, &chars_of("linemate")) {
            Some(Resource::Linemate)
        } else if chars_eq(cs, &chars_of("deraumere")) {
            Some(Resource::Deraumere)
        } else if chars_eq(cs, &chars_of("sibur")) {
            Some(Resource::Sibur)
        } else if chars_eq(cs, &chars_of("mendiane")) {
            Some(Resource::Mendiane)
        } else if chars_eq(cs, &chars_of("phiras")) {
            Some(Resource::Phiras)
        } else if chars_eq(cs, &chars_of("thystame")) {
            Some(Resource::Thystame)
        } else {
            None
        }
    }

    /// The lowercase protocol name of this resource.
    pub fn to_str(self) -> (res: &'static str)
        ensures
            res@ == resource_name(self),
    {
        match self {
            Resource::Food => "food",
            Resource::Linemate => "linemate",
            Resource::Deraumere => "deraumere",
            Resource::Sibur => "sibur",
            Resource::Mendiane => "mendiane",
            Resource::Phiras => "phiras",
            Resource::Thystame => "thystame",
        }
    }

    /// The position of the resource in the canonical order.
    pub fn index(self) -> (res: u32)
        ensures
            res == resource_index(self),
    {
        match self {
            Resource::Food => 0,
            Resource::Linemate => 1,
            Resource::Deraumere => 2,
            Resource::Sibur => 3,
            Resource::Mendiane => 4,
            Resource::Phiras => 5,
            Resource::Thystame => 6,
        }
    }

    /// Spawn density in hundredths of a unit per tile.
    pub fn density_percent(self) -> (res: u32)
        ensures
            res == density_percent(self),
    {
        match self {
            Resource::Food => 50,
            Resource::Linemate => 30,
            Resource::Deraumere => 15,
            Resource::Sibur => 10,
            Resource::Mendiane => 10,
            Resource::Phiras => 8,
            Resource::Thystame => 5,
        }
    }
}

/// One count per resource.
#[derive(Debug, Clone, Copy, PartialEq, Eq, Structural)]
pub struct ResourceCounts {
    pub food: u32,
    pub linemate: u32,
    pub deraumere: u32,
    pub sibur: u32,
    pub mendiane: u32,
    pub phiras: u32,
    pub thystame: u32,
}

impl ResourceCounts {
    /// The count of resource `r`.
    pub open spec fn count(self, r: Resource) -> u32 {
        match r {
            Resource::Food => self.food,
            Resource::Linemate => self.linemate,
            Resource::Deraumere => self.deraumere,
            Resource::Sibur => self.sibur,
            Resource::Mendiane => self.mendiane,
            Resource::Phiras => self.phiras,
            Resource::Thystame => self.thystame,
        }
    }

    /// The counts with resource `r` set to `v`.
    pub open spec fn with(self, r: Resource, v: u32) -> ResourceCounts {
        match r {
            Resource::Food => ResourceCounts { food: v, ..self },
            Resource::Linemate => ResourceCounts { linemate: v, ..self },
            Resource::Deraumere => ResourceCounts { deraumere: v, ..self },
            Resource::Sibur => ResourceCounts { sibur: v, ..self },
            Resource::Mendiane => ResourceCounts { mendiane: v, ..self },
            Resource::Phiras => ResourceCounts { phiras: v, ..self },
            Resource::Thystame => ResourceCounts { thystame: v, ..self },
        }
    }

    pub open spec fn zero() -> ResourceCounts {
        ResourceCounts {
            food: 0,
            linemate: 0,
            deraumere: 0,
            sibur: 0,
            mendiane: 0,
            phiras: 0,
            thystame: 0,
        }
    }

    /// No resource at all.
    pub fn new() -> (res: ResourceCounts)
        ensures
            res == ResourceCounts::zero(),
    {
        ResourceCounts {
            food: 0,
            linemate: 0,
            deraumere: 0,
            sibur: 0,
            mendiane: 0,
            phiras: 0,
            thystame: 0,
        }
    }

    /// The count of resource `r`.
    pub fn get(&self, r: Resource) -> (res: u32)
        ensures
            res == self.count(r),
    {
        match r {
            Resource::Food => self.food,
            Resource::Linemate => self.linemate,
            Resource::Deraumere => self.deraumere,
            Resource::Sibur => self.sibur,
            Resource::Mendiane => self.mendiane,
            Resource::Phiras => self.phiras,
            Resource::Thystame => self.thystame,
        }
    }

    /// Sets the count of resource `r` to `v`.
    pub fn set(&mut self, r: Resource, v: u32)
        ensures
            *final(self) == old(self).with(r, v),
    {
        match r {
            Resource::Food => self.food = v,
            Resource::Linemate => self.linemate = v,
            Resource::Deraumere => self.deraumere = v,
            Resource::Sibur => self.sibur = v,
            Resource::Mendiane => self.mendiane = v,
            Resource::Phiras => self.phiras = v,
            Resource::Thystame => self.thystame = v,
        }
    }
}

/// Reading back a count that was just set gives the value set; the other
/// counts are untouched.
pub proof fn lemma_with_count(c: ResourceCounts, r: Resource, v: u32, q: Resource)
    ensures
        c.with(r, v).count(q) == if q == r {
            v
        } else {
            c.count(q)
        },
{
}

/// A single map cell, holding the quantity of each resource present on it.
#[derive(Debug, Clone, Copy, PartialEq, Eq, Structural)]
pub struct Tile {
    /// Count of each resource currently lying on this tile.
    pub resources: ResourceCounts,
}

impl Tile {
    /// Creates an empty tile with no resources.
    pub fn new() -> (res: Tile)
        ensures
            res.resources == ResourceCounts::zero(),
    {
        Tile { resources: ResourceCounts::new() }
    }
}

} // verus!

verus! {

/// Time units between two resource respawns.
pub const RESPAWN_TIME: u64 = 20u64;

/// An egg laid by a `Fork`; a later connection to its team hatches from it.
pub struct Egg {
    /// Unique egg identifier (used in `enw`/`ebo`/`edi` GUI events).
    pub id: usize,
    /// X position of the egg on the map.
    pub x: u32,
    /// Y position of the egg on the map.
    pub y: u32,
    /// Team the egg belongs to; only that team can hatch from it.
    pub team: String,
    /// Instant at which the egg expires if not yet hatched.
    pub death_time: u64,
}

/// The remaining connection slots of one team.
pub struct TeamSlot {
    pub name: String,
    pub slots: usize,
}

/// A running incantation: the player who started it, and the level it was
/// started at (`None` when its start failed).
pub struct Incantation {
    pub player_id: usize,
    pub level: Option<u32>,
}

/// The complete authoritative game state for one running server.
pub struct World {
    /// Map width in tiles.
    pub width: u32,
    /// Map height in tiles.
    pub height: u32,
    /// Flat row-major tile grid, indexed `x + y * width`.
    pub tiles: Vec<Tile>,
    /// All connected players, in order of arrival (ascending ids).
    pub players: Vec<Player>,
    /// Remaining initial connection slots per team name.
    pub team_slots: Vec<TeamSlot>,
    /// Live (unhatched) eggs on the map.
    pub eggs: Vec<Egg>,
    /// Current time-unit frequency; higher means faster game time.
    pub freq: u32,
    /// Instant at which resources are next replenished.
    pub next_spawn_time: u64,
    /// Queue of GUI protocol lines awaiting broadcast to graphic clients.
    pub gui_events: VecDeque<String>,
    /// The incantations started and not yet completed.
    pub incantations: Vec<Incantation>,
    /// Counter for assigning the next player id.
    pub next_player_id: usize,
    /// Counter for assigning the next egg id.
    pub next_egg_id: usize,
}

// ---------------------------------------------------------------------------
// Players, teams and eggs as sequences
// ---------------------------------------------------------------------------

pub open spec fn ids_distinct(ps: Seq<Player>) -> bool {
    forall|i: int, j: int|
        0 <= i < ps.len() && 0 <= j < ps.len() && i != j ==> #[trigger] ps[i].id != #[trigger] ps[j].id
}

pub open spec fn has_player(ps: Seq<Player>, id: usize) -> bool {
    exists|i: int| 0 <= i < ps.len() && #[trigger] ps[i].id == id
}

/// Where the player with id `id` stands in `ps`.
pub open spec fn player_index(ps: Seq<Player>, id: usize) -> int {
    choose|i: int| 0 <= i < ps.len() && #[trigger] ps[i].id == id
}

pub proof fn lemma_player_index(ps: Seq<Player>, i: int)
    requires
        ids_distinct(ps),
        0 <= i < ps.len(),
    ensures
        has_player(ps, ps[i].id),
        player_index(ps, ps[i].id) == i,
{
    assert(has_player(ps, ps[i].id));
}

pub open spec fn names_distinct(ts: Seq<TeamSlot>) -> bool {
    forall|i: int, j: int|
        0 <= i < ts.len() && 0 <= j < ts.len() && i != j ==> #[trigger] ts[i].name@
            != #[trigger] ts[j].name@
}

pub open spec fn has_team(ts: Seq<TeamSlot>, name: Seq<char>) -> bool {
    exists|i: int| 0 <= i < ts.len() && #[trigger] ts[i].name@ == name
}

/// Where the team named `name` stands in `ts`.
pub open spec fn team_index(ts: Seq<TeamSlot>, name: Seq<char>) -> int {
    choose|i: int| 0 <= i < ts.len() && #[trigger] ts[i].name@ == name
}

pub proof fn lemma_team_index(ts: Seq<TeamSlot>, i: int)
    requires
        names_distinct(ts),
        0 <= i < ts.len(),
    ensures
        has_team(ts, ts[i].name@),
        team_index(ts, ts[i].name@) == i,
{
    assert(has_team(ts, ts[i].name@));
}

/// The free slots of team `name` (0 for an unknown team).
pub open spec fn slots_of(ts: Seq<TeamSlot>, name: Seq<char>) -> nat {
    if has_team(ts, name) {
        ts[team_index(ts, name)].slots as nat
    } else {
        0
    }
}

pub open spec fn rituals_distinct(rs: Seq<Incantation>) -> bool {
    forall|i: int, j: int|
        0 <= i < rs.len() && 0 <= j < rs.len() && i != j ==> #[trigger] rs[i].player_id
            != #[trigger] rs[j].player_id
}

pub open spec fn has_ritual(rs: Seq<Incantation>, id: usize) -> bool {
    exists|i: int| 0 <= i < rs.len() && #[trigger] rs[i].player_id == id
}

/// Where the incantation started by player `id` stands in `rs`.
pub open spec fn ritual_index(rs: Seq<Incantation>, id: usize) -> int {
    choose|i: int| 0 <= i < rs.len() && #[trigger] rs[i].player_id == id
}

/// The record of the incantation started by player `id`, if any: the level
/// it started at, or `None` when its start failed.
pub open spec fn ritual_of(rs: Seq<Incantation>, id: usize) -> Option<Option<u32>> {
    if has_ritual(rs, id) {
        Some(rs[ritual_index(rs, id)].level)
    } else {
        None
    }
}

pub proof fn lemma_ritual_index(rs: Seq<Incantation>, i: int)
    requires
        rituals_distinct(rs),
        0 <= i < rs.len(),
    ensures
        has_ritual(rs, rs[i].player_id),
        ritual_index(rs, rs[i].player_id) == i,
{
    assert(has_ritual(rs, rs[i].player_id));
}

/// `v + 1`, wrapping to 0 past `usize::MAX`.
pub open spec fn wrap_inc(v: usize) -> usize {
    if v < usize::MAX {
        (v + 1) as usize
    } else {
        0
    }
}

/// `i` is the first egg of team `team` in `eggs`.
pub open spec fn is_first_egg(eggs: Seq<Egg>, team: Seq<char>, i: int) -> bool {
    &&& 0 <= i < eggs.len()
    &&& eggs[i].team@ == team
    &&& forall|j: int| 0 <= j < i ==> #[trigger] eggs[j].team@ != team
}

pub open spec fn has_egg(eggs: Seq<Egg>, team: Seq<char>) -> bool {
    exists|i: int| 0 <= i < eggs.len() && #[trigger] eggs[i].team@ == team
}

/// The first egg of team `team` in `eggs`.
pub open spec fn first_egg(eggs: Seq<Egg>, team: Seq<char>) -> int {
    choose|i: int| is_first_egg(eggs, team, i)
}

/// How many eggs of team `team` there are.
pub open spec fn eggs_of(eggs: Seq<Egg>, team: Seq<char>) -> nat
    decreases eggs.len(),
{
    if eggs.len() == 0 {
        0
    } else {
        eggs_of(eggs.drop_last(), team) + if eggs.last().team@ == team {
            1nat
        } else {
            0nat
        }
    }
}

pub proof fn lemma_first_egg(eggs: Seq<Egg>, team: Seq<char>, i: int)
    requires
        is_first_egg(eggs, team, i),
    ensures
        has_egg(eggs, team),
        first_egg(eggs, team) == i,
{
    assert(eggs[i].team@ == team);
    let k = first_egg(eggs, team);
    assert(is_first_egg(eggs, team, k));
    if k < i {
        assert(eggs[k].team@ != team);
    }
    if i < k {
        assert(eggs[i].team@ != team);
    }
}

/// How many units of `r` lie on the tiles `tiles`.
pub open spec fn total_of(tiles: Seq<Tile>, r: Resource) -> nat
    decreases tiles.len(),
{
    if tiles.len() == 0 {
        0
    } else {
        total_of(tiles.drop_last(), r) + tiles.last().resources.count(r) as nat
    }
}

pub proof fn lemma_total_update(tiles: Seq<Tile>, i: int, t: Tile, r: Resource)
    requires
        0 <= i < tiles.len(),
    ensures
        total_of(tiles.update(i, t), r) + tiles[i].resources.count(r) == total_of(tiles, r)
            + t.resources.count(r),
    decreases tiles.len(),
{
    let u = tiles.update(i, t);
    if i < tiles.len() - 1 {
        assert(u.drop_last() =~= tiles.drop_last().update(i, t));
        lemma_total_update(tiles.drop_last(), i, t, r);
    } else {
        assert(u.drop_last() =~= tiles.drop_last());
    }
}

pub proof fn lemma_count_le_total(tiles: Seq<Tile>, i: int, r: Resource)
    requires
        0 <= i < tiles.len(),
    ensures
        tiles[i].resources.count(r) <= total_of(tiles, r),
    decreases tiles.len(),
{
    if i < tiles.len() - 1 {
        lemma_count_le_total(tiles.drop_last(), i, r);
    }
}

pub proof fn lemma_total_bound(tiles: Seq<Tile>, r: Resource)
    ensures
        total_of(tiles, r) <= tiles.len() * (u32::MAX as nat),
    decreases tiles.len(),
{
    if tiles.len() > 0 {
        lemma_total_bound(tiles.drop_last(), r);
    }
}

pub proof fn lemma_tile_index(w: nat, h: nat, x: nat, y: nat)
    requires
        x < w,
        y < h,
    ensures
        y * w + x < w * h,
{
    assert(y * w + x < w * h) by (nonlinear_arith)
        requires
            x < w,
            y < h,
    ;
}

impl World {
    /// The structural invariant of a world.
    pub open spec fn wf(self) -> bool {
        &&& self.width * self.height <= u32::MAX
        &&& self.width <= i32::MAX
        &&& self.height <= i32::MAX
        &&& self.tiles@.len() == self.width * self.height
        &&& self.freq > 0
        &&& ids_distinct(self.players@)
        &&& forall|i: int|
            0 <= i < self.players@.len() ==> {
                let p = #[trigger] self.players@[i];
                &&& p.x < self.width
                &&& p.y < self.height
                &&& p.id < self.next_player_id
            }
        &&& names_distinct(self.team_slots@)
        &&& rituals_distinct(self.incantations@)
        &&& forall|i: int|
            0 <= i < self.eggs@.len() ==> {
                let e = #[trigger] self.eggs@[i];
                &&& e.x < self.width
                &&& e.y < self.height
            }
    }

    /// The index of tile `(x, y)` in `tiles`.
    pub open spec fn tile_index(self, x: nat, y: nat) -> int {
        (y * self.width + x) as int
    }

    /// The tile at `(x, y)`.
    pub open spec fn tile_at(self, x: nat, y: nat) -> Tile {
        self.tiles@[self.tile_index(x, y)]
    }

    /// The pending GUI events, as character sequences.
    pub open spec fn events(self) -> Seq<Seq<char>> {
        self.gui_events@.map_values(|s: String| s@)
    }

    /// The player with id `id` (meaningful when there is one).
    pub open spec fn player_with(self, id: usize) -> Player {
        self.players@[player_index(self.players@, id)]
    }

    /// The index in `players` of the player with id `id`, if any.
    pub fn find_player(&self, id: usize) -> (res: Option<usize>)
        requires
            ids_distinct(self.players@),
        ensures
            match res {
                Some(i) => i < self.players@.len() && self.players@[i as int].id == id
                    && player_index(self.players@, id) == i,
                None => !has_player(self.players@, id),
            },
    {
        let mut i: usize = 0;
        while i < self.players.len()
            invariant
                i <= self.players@.len(),
                ids_distinct(self.players@),
                forall|j: int| 0 <= j < i ==> self.players@[j].id != id,
            decreases self.players.len() - i,
        {
            if self.players[i].id == id {
                proof {
                    lemma_player_index(self.players@, i as int);
                }
                return Some(i);
            }
            i = i + 1;
        }
        None
    }

    /// The player with id `id`, if any.
    pub fn player(&self, id: usize) -> (res: Option<&Player>)
        requires
            ids_distinct(self.players@),
        ensures
            match res {
                Some(p) => has_player(self.players@, id) && *p == self.player_with(id),
                None => !has_player(self.players@, id),
            },
    {
        match self.find_player(id) {
            Some(i) => Some(&self.players[i]),
            None => None,
        }
    }

    /// The index in `team_slots` of the team named `name`, if any.
    pub fn find_team(&self, name: &String) -> (res: Option<usize>)
        requires
            names_distinct(self.team_slots@),
        ensures
            match res {
                Some(i) => i < self.team_slots@.len() && self.team_slots@[i as int].name@ == name@
                    && team_index(self.team_slots@, name@) == i,
                None => !has_team(self.team_slots@, name@),
            },
    {
        let mut i: usize = 0;
        while i < self.team_slots.len()
            invariant
                i <= self.team_slots@.len(),
                names_distinct(self.team_slots@),
                forall|j: int| 0 <= j < i ==> self.team_slots@[j].name@ != name@,
            decreases self.team_slots.len() - i,
        {
            if self.team_slots[i].name == *name {
                proof {
                    lemma_team_index(self.team_slots@, i as int);
                }
                return Some(i);
            }
            i = i + 1;
        }
        None
    }

    /// The free connection slots of team `name`, or `None` for an unknown
    /// team.
    pub fn team_slots_of(&self, name: &str) -> (res: Option<usize>)
        requires
            names_distinct(self.team_slots@),
        ensures
            match res {
                Some(n) => has_team(self.team_slots@, name@) && n == slots_of(
                    self.team_slots@,
                    name@,
                ),
                None => !has_team(self.team_slots@, name@),
            },
    {
        let t = name.to_owned();
        match self.find_team(&t) {
            Some(i) => Some(self.team_slots[i].slots),
            None => None,
        }
    }

    /// The index of the first egg of team `team`, if any.
    pub fn find_egg(&self, team: &String) -> (res: Option<usize>)
        ensures
            match res {
                Some(i) => is_first_egg(self.eggs@, team@, i as int) && first_egg(
                    self.eggs@,
                    team@,
                ) == i,
                None => !has_egg(self.eggs@, team@),
            },
    {
        let mut i: usize = 0;
        while i < self.eggs.len()
            invariant
                i <= self.eggs@.len(),
                forall|j: int| 0 <= j < i ==> #[trigger] self.eggs@[j].team@ != team@,
            decreases self.eggs.len() - i,
        {
            if self.eggs[i].team == *team {
                proof {
                    lemma_first_egg(self.eggs@, team@, i as int);
                }
                return Some(i);
            }
            i = i + 1;
        }
        None
    }

    /// How many eggs of team `team` lie on the map.
    pub fn count_eggs(&self, team: &String) -> (res: usize)
        ensures
            res == eggs_of(self.eggs@, team@),
    {
        let mut n: usize = 0;
        let mut i: usize = 0;
        while i < self.eggs.len()
            invariant
                i <= self.eggs@.len(),
                n == eggs_of(self.eggs@.take(i as int), team@),
                n <= i,
            decreases self.eggs.len() - i,
        {
            assert(self.eggs@.take(i + 1).drop_last() =~= self.eggs@.take(i as int));
            if self.eggs[i].team == *team {
                n = n + 1;
            }
            i = i + 1;
        }
        assert(self.eggs@.take(self.eggs@.len() as int) =~= self.eggs@);
        n
    }

    /// Returns a shared reference to the tile at `(x, y)`.
    pub fn get_tile(&self, x: u32, y: u32) -> (res: &Tile)
        requires
            y * self.width + x < self.tiles@.len(),
            self.tiles@.len() <= u32::MAX,
        ensures
            *res == self.tile_at(x as nat, y as nat),
    {
        let idx = (y * self.width + x) as usize;
        &self.tiles[idx]
    }

    /// Returns a mutable reference to the tile at `(x, y)`.
    pub fn get_tile_mut(&mut self, x: u32, y: u32) -> (res: &mut Tile)
        requires
            y * old(self).width + x < old(self).tiles@.len(),
            old(self).tiles@.len() <= u32::MAX,
        ensures
            *res == old(self).tile_at(x as nat, y as nat),
            final(self).tiles@ == old(self).tiles@.update(
                old(self).tile_index(x as nat, y as nat),
                *final(res),
            ),
            *final(self) == (World { tiles: final(self).tiles, ..*old(self) }),
    {
        let idx = (y * self.width + x) as usize;
        &mut self.tiles[idx]
    }
}


/// A map of `n` empty tiles holds no resource at all.
pub proof fn lemma_total_empty(tiles: Seq<Tile>, r: Resource)
    requires
        forall|i: int| 0 <= i < tiles.len() ==> #[trigger] tiles[i].resources == ResourceCounts::zero(),
    ensures
        total_of(tiles, r) == 0,
    decreases tiles.len(),
{
    if tiles.len() > 0 {
        lemma_total_empty(tiles.drop_last(), r);
    }
}

impl World {
    /// The fields other than the players, teams, eggs and events are those
    /// of `other`.
    pub open spec fn same_ground(self, other: World) -> bool {
        &&& self.width == other.width
        &&& self.height == other.height
        &&& self.tiles@ == other.tiles@
        &&& self.freq == other.freq
        &&& self.next_spawn_time == other.next_spawn_time
        &&& self.incantations@ == other.incantations@
        &&& self.next_egg_id == other.next_egg_id
    }

    /// Builds a world of `width` x `height` tiles, gives every team named in
    /// `teams` `clients_per_team` slots, schedules the first resource respawn
    /// 20 time units ahead and spawns the initial resources.
    pub fn new(
        width: u32,
        height: u32,
        teams: Vec<String>,
        clients_per_team: usize,
        freq: u32,
    ) -> (res: World)
        requires
            width * height <= u32::MAX,
            width <= i32::MAX,
            height <= i32::MAX,
            freq > 0,
        ensures
            res.wf(),
            res.width == width,
            res.height == height,
            res.freq == freq,
            res.players@.len() == 0,
            res.eggs@.len() == 0,
            res.gui_events@.len() == 0,
            res.incantations@.len() == 0,
            res.next_player_id == 1,
            res.next_egg_id == 1,
            forall|n: Seq<char>|
                has_team(res.team_slots@, n) <==> teams@.map_values(|t: String| t@).contains(n),
            forall|i: int|
                0 <= i < res.team_slots@.len() ==> #[trigger] res.team_slots@[i].slots
                    == clients_per_team,
            forall|r: Resource|
                total_of(res.tiles@, r) == target_quantity((width * height) as nat, r),
            exists|now: nat|
                res.next_spawn_time == sat_add(now, units_to_nanos(RESPAWN_TIME as nat, freq as nat)),
    {
        let ghost names = teams@.map_values(|t: String| t@);
        let mut team_slots: Vec<TeamSlot> = Vec::new();
        let mut i: usize = 0;
        while i < teams.len()
            invariant
                i <= teams@.len(),
                names == teams@.map_values(|t: String| t@),
                names_distinct(team_slots@),
                forall|n: Seq<char>| has_team(team_slots@, n) <==> names.take(i as int).contains(n),
                forall|k: int|
                    0 <= k < team_slots@.len() ==> #[trigger] team_slots@[k].slots
                        == clients_per_team,
            decreases teams.len() - i,
        {
            let name = teams[i].clone();
            let ghost before = team_slots@;
            let mut known = false;
            let mut k: usize = 0;
            while k < team_slots.len()
                invariant
                    k <= team_slots@.len(),
                    known == exists|j: int| 0 <= j < k && #[trigger] team_slots@[j].name@ == name@,
                decreases team_slots.len() - k,
            {
                if team_slots[k].name == name {
                    known = true;
                }
                k = k + 1;
            }
            assert(names.take(i + 1) =~= names.take(i as int).push(name@));
            if !known {
                let ghost nm = name@;
                team_slots.push(TeamSlot { name, slots: clients_per_team });
                assert forall|a: int, b: int|
                    0 <= a < team_slots@.len() && 0 <= b < team_slots@.len() && a != b
                    implies #[trigger] team_slots@[a].name@ != #[trigger] team_slots@[b].name@ by {
                    if a < before.len() && b < before.len() {
                        assert(before[a].name@ != before[b].name@);
                    } else if a < before.len() {
                        assert(team_slots@[b].name@ == nm);
                        assert(before[a].name@ != nm);
                    } else if b < before.len() {
                        assert(team_slots@[a].name@ == nm);
                        assert(before[b].name@ != nm);
                    }
                }
                assert forall|n: Seq<char>| has_team(team_slots@, n) <==> names.take(
                    i + 1,
                ).contains(n) by {
                    if has_team(team_slots@, n) {
                        let j = choose|j: int| 0 <= j < team_slots@.len() && #[trigger] team_slots@[j].name@ == n;
                        if j < before.len() {
                            assert(before[j].name@ == n);
                            assert(has_team(before, n));
                            assert(names.take(i as int).contains(n));
                            let k = choose|k: int| 0 <= k < i && #[trigger] names.take(i as int)[k] == n;
                            assert(names.take(i + 1)[k] == n);
                        } else {
                            assert(names.take(i + 1)[i as int] == n);
                        }
                    }
                    if names.take(i + 1).contains(n) && n != names[i as int] {
                        assert(names.take(i as int).contains(n)) by {
                            let j = choose|j: int| 0 <= j < i + 1 && #[trigger] names.take(i + 1)[j] == n;
                            assert(names.take(i as int)[j] == n);
                        }
                        assert(has_team(before, n));
                        let j = choose|j: int| 0 <= j < before.len() && #[trigger] before[j].name@ == n;
                        assert(team_slots@[j] == before[j]);
                        assert(team_slots@[j].name@ == n);
                    }
                    if n == names[i as int] {
                        assert(team_slots@[before.len() as int].name@ == n);
                    }
                }
            } else {
                assert forall|n: Seq<char>| has_team(team_slots@, n) <==> names.take(
                    i + 1,
                ).contains(n) by {
                    if names.take(i + 1).contains(n) && n != names[i as int] {
                        assert(names.take(i as int).contains(n)) by {
                            let j = choose|j: int| 0 <= j < i + 1 && #[trigger] names.take(i + 1)[j] == n;
                            assert(names.take(i as int)[j] == n);
                        }
                    }
                    if has_team(team_slots@, n) {
                        assert(names.take(i as int).contains(n));
                        let j = choose|j: int| 0 <= j < i && #[trigger] names.take(i as int)[j] == n;
                        assert(names.take(i + 1)[j] == n);
                    }
                }
            }
            i = i + 1;
        }
        assert(names.take(teams@.len() as int) =~= names);

        let total: usize = (width * height) as usize;
        let mut tiles: Vec<Tile> = Vec::new();
        let mut t: usize = 0;
        while t < total
            invariant
                t <= total,
                tiles@.len() == t,
                forall|j: int| 0 <= j < t ==> #[trigger] tiles@[j].resources == ResourceCounts::zero(),
            decreases total - t,
        {
            tiles.push(Tile::new());
            t = t + 1;
        }
        let now = now_nanos();
        let interval = time_units_to_nanos(RESPAWN_TIME, freq);
        let mut world = World {
            width,
            height,
            tiles,
            players: Vec::new(),
            team_slots,
            eggs: Vec::new(),
            freq,
            next_spawn_time: now.saturating_add(interval),
            gui_events: VecDeque::new(),
            incantations: Vec::new(),
            next_player_id: 1,
            next_egg_id: 1,
        };
        proof {
            assert forall|r: Resource| total_of(world.tiles@, r) == 0 by {
                lemma_total_empty(world.tiles@, r);
            }
        }
        world.spawn_resources();
        assert(world.next_spawn_time == sat_add(now as nat, units_to_nanos(RESPAWN_TIME as nat, freq as nat)));
        world
    }

    /// `new` is `old` without the player `id`, whose team (if it has one)
    /// got its connection slot back; nothing else changed.
    pub open spec fn player_removed(new: World, old: World, id: usize) -> bool {
        &&& new.same_ground(old)
        &&& new.eggs@ == old.eggs@
        &&& new.gui_events@ == old.gui_events@
        &&& new.next_player_id == old.next_player_id
        &&& !has_player(new.players@, id)
        &&& if has_player(old.players@, id) {
            let i = player_index(old.players@, id);
            let team = old.players@[i].team@;
            &&& new.players@ == old.players@.remove(i)
            &&& if has_team(old.team_slots@, team) {
                let t = team_index(old.team_slots@, team);
                new.team_slots@ == old.team_slots@.update(
                    t,
                    TeamSlot {
                        name: old.team_slots@[t].name,
                        slots: wrap_inc(old.team_slots@[t].slots),
                    },
                )
            } else {
                new.team_slots@ == old.team_slots@
            }
        } else {
            &&& new.players@ == old.players@
            &&& new.team_slots@ == old.team_slots@
        }
    }

    /// Removes a player and gives its connection slot back to its team.
    pub fn remove_player(&mut self, player_id: usize)
        requires
            old(self).wf(),
        ensures
            final(self).wf(),
            World::player_removed(*final(self), *old(self), player_id),
    {
        if let Some(i) = self.find_player(player_id) {
            let p = self.players.remove(i);
            if let Some(t) = self.find_team(&p.team) {
                let s = self.team_slots[t].slots;
                self.team_slots[t].slots = if s < usize::MAX {
                    s + 1
                } else {
                    0
                };
                assert(self.team_slots@ =~= old(self).team_slots@.update(
                    t as int,
                    TeamSlot {
                        name: old(self).team_slots@[t as int].name,
                        slots: wrap_inc(old(self).team_slots@[t as int].slots),
                    },
                ));
                assert forall|a: int, b: int|
                    0 <= a < self.team_slots@.len() && 0 <= b < self.team_slots@.len() && a != b
                    implies #[trigger] self.team_slots@[a].name@ != #[trigger] self.team_slots@[b].name@ by {
                    assert(old(self).team_slots@[a].name@ != old(self).team_slots@[b].name@);
                }
            }
            assert forall|a: int, b: int|
                0 <= a < self.players@.len() && 0 <= b < self.players@.len() && a != b
                implies #[trigger] self.players@[a].id != #[trigger] self.players@[b].id by {
                let a0 = if a < i { a } else { a + 1 };
                let b0 = if b < i { b } else { b + 1 };
                assert(self.players@[a] == old(self).players@[a0]);
                assert(self.players@[b] == old(self).players@[b0]);
            }
            assert forall|a: int| 0 <= a < self.players@.len() implies {
                let p = #[trigger] self.players@[a];
                &&& p.x < self.width
                &&& p.y < self.height
                &&& p.id < self.next_player_id
            } by {
                let a0 = if a < i { a } else { a + 1 };
                assert(self.players@[a] == old(self).players@[a0]);
            }
            assert(!has_player(self.players@, player_id)) by {
                if has_player(self.players@, player_id) {
                    let a = choose|a: int| 0 <= a < self.players@.len() && #[trigger] self.players@[a].id == player_id;
                    let a0 = if a < i { a } else { a + 1 };
                    assert(self.players@[a] == old(self).players@[a0]);
                }
            }
        }
    }
}

pub open spec fn max_nat(a: nat, b: nat) -> nat {
    if a >= b {
        a
    } else {
        b
    }
}

pub proof fn lemma_target_bound(t: nat, r: Resource)
    ensures
        target_quantity(t, r) <= t,
{
    let p = density_percent(r);
    assert(p <= 50);
    assert((t * p + 99) / 100 <= t) by (nonlinear_arith)
        requires
            p <= 50,
    ;
}

pub proof fn lemma_resource_position(r: Resource)
    ensures
        all_resources()[resource_index(r) as int] == r,
        resource_index(r) < 7,
{
}

impl World {
    /// How many units of `r` lie on the map.
    pub fn total_quantity(&self, r: Resource) -> (res: u64)
        requires
            self.tiles@.len() <= u32::MAX,
        ensures
            res == total_of(self.tiles@, r),
    {
        let mut sum: u64 = 0;
        let mut i: usize = 0;
        while i < self.tiles.len()
            invariant
                i <= self.tiles@.len() <= u32::MAX,
                sum == total_of(self.tiles@.take(i as int), r),
            decreases self.tiles.len() - i,
        {
            proof {
                lemma_total_bound(self.tiles@.take(i as int), r);
                assert(self.tiles@.take(i + 1).drop_last() =~= self.tiles@.take(i as int));
            }
            sum = sum + self.tiles[i].resources.get(r) as u64;
            i = i + 1;
        }
        assert(self.tiles@.take(self.tiles@.len() as int) =~= self.tiles@);
        sum
    }

    /// `new` is `old` with resources added to its tiles: each resource's
    /// total is raised to its target when it was below, and no tile loses
    /// anything; nothing else changes.
    pub open spec fn resources_spawned(new: World, old: World) -> bool {
        &&& new.tiles@.len() == old.tiles@.len()
        &&& new == (World { tiles: new.tiles, ..old })
        &&& forall|r: Resource|
            total_of(new.tiles@, r) == max_nat(
                total_of(old.tiles@, r),
                target_quantity(old.tiles@.len(), r),
            )
        &&& forall|i: int, r: Resource|
            0 <= i < old.tiles@.len() ==> #[trigger] new.tiles@[i].resources.count(r)
                >= old.tiles@[i].resources.count(r)
    }

    /// Tops up the map so that each resource's total count reaches its
    /// target `ceil(width * height * density)`, scattering any shortfall
    /// onto random tiles. No tile loses anything.
    pub fn spawn_resources(&mut self)
        requires
            old(self).tiles@.len() == old(self).width * old(self).height,
            old(self).width * old(self).height <= u32::MAX,
        ensures
            World::resources_spawned(*final(self), *old(self)),
    {
        let all = Resource::all();
        let total_tiles = (self.width * self.height) as u64;
        let ghost n = old(self).tiles@.len();
        let mut ri: usize = 0;
        while ri < all.len()
            invariant
                all@ == all_resources(),
                ri <= 7,
                n == old(self).tiles@.len(),
                total_tiles == n,
                n == self.width * self.height,
                n <= u32::MAX,
                self.tiles@.len() == n,
                *self == (World { tiles: self.tiles, ..*old(self) }),
                forall|j: int|
                    0 <= j < ri ==> total_of(self.tiles@, #[trigger] all_resources()[j]) == max_nat(
                        total_of(old(self).tiles@, all_resources()[j]),
                        target_quantity(n, all_resources()[j]),
                    ),
                forall|j: int|
                    ri <= j < 7 ==> total_of(self.tiles@, #[trigger] all_resources()[j])
                        == total_of(old(self).tiles@, all_resources()[j]),
                forall|i: int, q: Resource|
                    0 <= i < n ==> #[trigger] self.tiles@[i].resources.count(q)
                        >= old(self).tiles@[i].resources.count(q),
            decreases 7 - ri,
        {
            let r = all[ri];
            let pct = r.density_percent() as u64;
            assert(total_tiles * pct + 99 <= u64::MAX) by (nonlinear_arith)
                requires
                    total_tiles <= u32::MAX,
                    pct <= 50,
            ;
            let target = (total_tiles * pct + 99) / 100;
            proof {
                lemma_target_bound(n, r);
            }
            let current = self.total_quantity(r);
            let ghost start = self.tiles@;
            if current < target {
                assert(self.width > 0 && self.height > 0) by (nonlinear_arith)
                    requires
                        self.width * self.height == n,
                        n > 0,
                ;
                let missing = target - current;
                let mut k: u64 = 0;
                while k < missing
                    invariant
                        k <= missing,
                        missing == target - current,
                        target == target_quantity(n, r),
                        target <= n,
                        n == self.width * self.height,
                        n <= u32::MAX,
                        self.width > 0,
                        self.height > 0,
                        self.tiles@.len() == n,
                        *self == (World { tiles: self.tiles, ..*old(self) }),
                        total_of(self.tiles@, r) == current + k,
                        forall|q: Resource| q != r ==> total_of(self.tiles@, q) == total_of(start, q),
                        forall|i: int, q: Resource|
                            0 <= i < n ==> #[trigger] self.tiles@[i].resources.count(q)
                                >= start[i].resources.count(q),
                    decreases missing - k,
                {
                    let x = random_below(self.width);
                    let y = random_below(self.height);
                    proof {
                        lemma_tile_index(self.width as nat, self.height as nat, x as nat, y as nat);
                    }
                    let idx = (y * self.width + x) as usize;
                    let c = self.tiles[idx].resources.get(r);
                    proof {
                        lemma_count_le_total(self.tiles@, idx as int, r);
                    }
                    let ghost before = self.tiles@;
                    let mut t = self.tiles[idx];
                    t.resources.set(r, c + 1);
                    self.tiles.set(idx, t);
                    proof {
                        assert(self.tiles@ == before.update(idx as int, t));
                        lemma_total_update(before, idx as int, t, r);
                        assert forall|q: Resource| q != r implies total_of(self.tiles@, q) == total_of(
                            start,
                            q,
                        ) by {
                            lemma_total_update(before, idx as int, t, q);
                        }
                        assert forall|i: int, q: Resource| 0 <= i < n implies #[trigger] self.tiles@[i].resources.count(q)
                            >= start[i].resources.count(q) by {
                            assert(before[i].resources.count(q) >= start[i].resources.count(q));
                            if i == idx {
                                lemma_with_count(before[i].resources, r, (c + 1) as u32, q);
                            }
                        }
                    }
                    k = k + 1;
                }
            }
            proof {
                assert forall|j: int| 0 <= j < ri + 1 implies total_of(
                    self.tiles@,
                    #[trigger] all_resources()[j],
                ) == max_nat(
                    total_of(old(self).tiles@, all_resources()[j]),
                    target_quantity(n, all_resources()[j]),
                ) by {
                    if j < ri {
                        assert(all_resources()[j] != r);
                    }
                }
                assert forall|j: int| ri + 1 <= j < 7 implies total_of(
                    self.tiles@,
                    #[trigger] all_resources()[j],
                ) == total_of(old(self).tiles@, all_resources()[j]) by {
                    assert(all_resources()[j] != r);
                }
            }
            ri = ri + 1;
        }
        proof {
            assert forall|r: Resource| total_of(self.tiles@, r) == max_nat(
                total_of(old(self).tiles@, r),
                target_quantity(n, r),
            ) by {
                lemma_resource_position(r);
                let j = resource_index(r) as int;
                assert(all_resources()[j] == r);
            }
        }
    }
}

impl World {
    /// A new player can join team `team` without drawing a random spawn
    /// position: an egg of the team is waiting.
    pub open spec fn joins_on_egg(self, team: Seq<char>) -> bool {
        has_egg(self.eggs@, team)
    }

    /// A new player can join team `team` on a free slot (no egg waiting).
    pub open spec fn joins_on_slot(self, team: Seq<char>) -> bool {
        !has_egg(self.eggs@, team) && slots_of(self.team_slots@, team) > 0
    }

    /// Adds a player to `team` at `now`, returning its new id, or `None` if
    /// the team has neither an egg nor a free slot. The player hatches from
    /// the team's first egg if there is one (consuming it and announcing
    /// `ebo`), otherwise it takes a free slot and appears at `(x, y)`. It
    /// faces `facing`.
    /// `new` is `old` after a player joined team `team` at `now` with frequency
    /// `freq`: hatching from the team's first egg if there is one, otherwise on
    /// a free slot at `(x, y)`; facing `facing`. `res` is its id, or `None`
    /// (nothing changed) when the team had neither an egg nor a free slot.
    pub open spec fn joined_at(
        new: World,
        old: World,
        team: Seq<char>,
        freq: nat,
        now: nat,
        x: u32,
        y: u32,
        facing: Direction,
        res: Option<usize>,
    ) -> bool {
        &&& new.same_ground(old)
        &&& match res {
            Some(id) => {
                &&& id == old.next_player_id
                &&& new.next_player_id == id + 1
                &&& new.players@.len() == old.players@.len() + 1
                &&& new.players@.drop_last() == old.players@
                &&& if old.joins_on_egg(team) {
                    let e = first_egg(old.eggs@, team);
                    let egg = old.eggs@[e];
                    &&& new.players@.last().is_new(
                        id,
                        egg.x,
                        egg.y,
                        facing,
                        team,
                        freq,
                        now,
                    )
                    &&& new.eggs@ == old.eggs@.remove(e)
                    &&& new.events() == old.events().push(
                        lines::tagged_line("ebo"@, egg.id as nat),
                    )
                    &&& new.team_slots@ == old.team_slots@
                } else {
                    let t = team_index(old.team_slots@, team);
                    &&& old.joins_on_slot(team)
                    &&& new.players@.last().is_new(
                        id,
                        x,
                        y,
                        facing,
                        team,
                        freq,
                        now,
                    )
                    &&& new.team_slots@ == old.team_slots@.update(
                        t,
                        TeamSlot {
                            name: old.team_slots@[t].name,
                            slots: (old.team_slots@[t].slots - 1) as usize,
                        },
                    )
                    &&& new.eggs@ == old.eggs@
                    &&& new.gui_events@ == old.gui_events@
                }
            },
            None => {
                &&& !old.joins_on_egg(team)
                &&& !old.joins_on_slot(team)
                &&& new == old
            },
        }
    }

    pub fn add_player_at(
        &mut self,
        team: &str,
        freq: u32,
        now: u64,
        x: u32,
        y: u32,
        facing: Direction,
    ) -> (res: Option<usize>)
        requires
            old(self).wf(),
            freq > 0,
            old(self).next_player_id < usize::MAX,
            old(self).joins_on_slot(team@) ==> x < old(self).width && y < old(self).height,
        ensures
            final(self).wf(),
            World::joined_at(*final(self), *old(self), team@, freq as nat, now as nat, x, y, facing, res),
    {
        let t = team.to_owned();
        let (px, py) = match self.find_egg(&t) {
            Some(e) => {
                let egg = self.eggs.remove(e);
                let line = lines::tagged("ebo", egg.id as u64);
                self.gui_events.push_back(line);
                assert(self.events() =~= old(self).events().push(
                    lines::tagged_line("ebo"@, egg.id as nat),
                ));
                assert forall|a: int| 0 <= a < self.eggs@.len() implies {
                    let g = #[trigger] self.eggs@[a];
                    &&& g.x < self.width
                    &&& g.y < self.height
                } by {
                    let a0 = if a < e { a } else { a + 1 };
                    assert(self.eggs@[a] == old(self).eggs@[a0]);
                }
                assert(old(self).eggs@[e as int] == egg);
                (egg.x, egg.y)
            },
            None => {
                match self.find_team(&t) {
                    Some(ti) => {
                        if self.team_slots[ti].slots == 0 {
                            return None;
                        }
                        let s = self.team_slots[ti].slots;
                        self.team_slots[ti].slots = s - 1;
                        assert(self.team_slots@ =~= old(self).team_slots@.update(
                            ti as int,
                            TeamSlot {
                                name: old(self).team_slots@[ti as int].name,
                                slots: (old(self).team_slots@[ti as int].slots - 1) as usize,
                            },
                        ));
                        assert forall|a: int, b: int|
                            0 <= a < self.team_slots@.len() && 0 <= b < self.team_slots@.len()
                                && a != b implies #[trigger] self.team_slots@[a].name@
                            != #[trigger] self.team_slots@[b].name@ by {
                            assert(old(self).team_slots@[a].name@ != old(self).team_slots@[b].name@);
                        }
                        (x, y)
                    },
                    None => {
                        return None;
                    },
                }
            },
        };
        let id = self.next_player_id;
        self.next_player_id = id + 1;
        let player = Player::new_at(id, px, py, facing, t, freq, now);
        let ghost before = self.players@;
        self.players.push(player);
        assert(self.players@.drop_last() =~= before);
        assert forall|a: int, b: int|
            0 <= a < self.players@.len() && 0 <= b < self.players@.len() && a != b
            implies #[trigger] self.players@[a].id != #[trigger] self.players@[b].id by {
            if a < before.len() {
                assert(self.players@[a] == before[a]);
            }
            if b < before.len() {
                assert(self.players@[b] == before[b]);
            }
        }
        assert forall|a: int| 0 <= a < self.players@.len() implies {
            let p = #[trigger] self.players@[a];
            &&& p.x < self.width
            &&& p.y < self.height
            &&& p.id < self.next_player_id
        } by {
            if a < before.len() {
                assert(self.players@[a] == before[a]);
            }
        }
        Some(id)
    }

    /// Adds a player to `team_name`, returning its new id, or `None` if the
    /// team is full. The player hatches at an existing egg of the team if
    /// one exists (consuming it), otherwise it consumes a free team slot and
    /// spawns at a random position. Its facing is random; it is created at
    /// the current time (see [`World::joined_at`]).
    pub fn add_player(&mut self, team_name: &str, freq: u32) -> (res: Option<usize>)
        requires
            old(self).wf(),
            freq > 0,
            old(self).next_player_id < usize::MAX,
            old(self).joins_on_slot(team_name@) ==> old(self).width > 0 && old(self).height > 0,
        ensures
            final(self).wf(),
            exists|now: nat, x: u32, y: u32, facing: Direction|
                {
                    &&& (old(self).joins_on_slot(team_name@) ==> x < old(self).width && y < old(self).height)
                    &&& World::joined_at(*final(self), *old(self), team_name@, freq as nat, now, x, y, facing, res)
                },
    {
        let t = team_name.to_owned();
        let on_slot = match self.find_egg(&t) {
            Some(_) => false,
            None => match self.find_team(&t) {
                Some(ti) => self.team_slots[ti].slots > 0,
                None => false,
            },
        };
        let (x, y) = if on_slot {
            (random_below(self.width), random_below(self.height))
        } else {
            (0, 0)
        };
        let facing = Direction::from_index(random_below(4));
        let now = now_nanos();
        self.add_player_at(team_name, freq, now, x, y, facing)
    }
}

/// A player who joins a team and then leaves it gives the team its slot
/// back: the team ends with the slots it had before, one more if the player
/// had hatched from an egg (the slot counts wrap at the largest `usize`).
pub proof fn lemma_slot_refund(
    old: World,
    mid: World,
    new: World,
    team: Seq<char>,
    freq: nat,
    now: nat,
    x: u32,
    y: u32,
    facing: Direction,
    id: usize,
)
    requires
        old.wf(),
        mid.wf(),
        World::joined_at(mid, old, team, freq, now, x, y, facing, Some(id)),
        World::player_removed(new, mid, id),
    ensures
        has_team(old.team_slots@, team) ==> {
            let t = team_index(old.team_slots@, team);
            new.team_slots@ == old.team_slots@.update(
                t,
                TeamSlot {
                    name: old.team_slots@[t].name,
                    slots: if old.joins_on_egg(team) {
                        wrap_inc(old.team_slots@[t].slots)
                    } else {
                        old.team_slots@[t].slots
                    },
                },
            )
        },
{
    let n = mid.players@.len() - 1;
    assert(mid.players@[n].id == id);
    assert(mid.players@[n].team@ == team);
    assert forall|j: int| 0 <= j < n implies mid.players@[j].id != id by {
        assert(mid.players@[j] == old.players@[j]);
        assert(old.players@[j].id < old.next_player_id);
    }
    lemma_player_index(mid.players@, n);
    if has_team(old.team_slots@, team) {
        let t = team_index(old.team_slots@, team);
        lemma_team_index(old.team_slots@, t);
        assert(old.team_slots@[t].name@ == team);
        if old.joins_on_egg(team) {
            assert(mid.team_slots@ == old.team_slots@);
            lemma_team_index(mid.team_slots@, t);
        } else {
            let m = mid.team_slots@;
            assert(m[t].name@ == team);
            assert(names_distinct(m)) by {
                assert forall|a: int, b: int| 0 <= a < m.len() && 0 <= b < m.len() && a != b implies #[trigger] m[a].name@ != #[trigger] m[b].name@ by {
                    assert(old.team_slots@[a].name@ != old.team_slots@[b].name@);
                }
            }
            lemma_team_index(m, t);
            assert(new.team_slots@ =~= old.team_slots@.update(
                t,
                TeamSlot { name: old.team_slots@[t].name, slots: old.team_slots@[t].slots },
            ));
        }
    }
}

/// How many players of `ps` stand on tile `(x, y)`.
pub open spec fn players_on(ps: Seq<Player>, x: u32, y: u32) -> nat
    decreases ps.len(),
{
    if ps.len() == 0 {
        0
    } else {
        players_on(ps.drop_last(), x, y) + if ps.last().x == x && ps.last().y == y {
            1nat
        } else {
            0nat
        }
    }
}

/// `n` copies of the word `w`.
pub open spec fn repeat_word(w: Seq<char>, n: nat) -> Seq<Seq<char>> {
    Seq::new(n, |_i: int| w)
}

/// One word per resource unit of `c`, for the first `k` resources of the
/// canonical order.
pub open spec fn resource_words(c: ResourceCounts, k: nat) -> Seq<Seq<char>>
    decreases k,
{
    if k == 0 {
        Seq::empty()
    } else {
        let r = all_resources()[k - 1];
        resource_words(c, (k - 1) as nat) + repeat_word(resource_name(r), c.count(r) as nat)
    }
}

/// What `Look` reports of a tile: one `player` word per player standing on
/// it, then one word per resource unit, separated by spaces.
pub open spec fn tile_content(players: nat, c: ResourceCounts) -> Seq<char> {
    join_space(repeat_word("player"@, players) + resource_words(c, 7))
}

/// How many players of team `team` have reached level 8.
pub open spec fn level8_count(ps: Seq<Player>, team: Seq<char>) -> nat
    decreases ps.len(),
{
    if ps.len() == 0 {
        0
    } else {
        level8_count(ps.drop_last(), team) + if ps.last().team@ == team && ps.last().level >= 8 {
            1nat
        } else {
            0nat
        }
    }
}

pub proof fn lemma_level8_witness(ps: Seq<Player>, team: Seq<char>)
    requires
        level8_count(ps, team) > 0,
    ensures
        exists|j: int| 0 <= j < ps.len() && #[trigger] ps[j].team@ == team && ps[j].level >= 8,
    decreases ps.len(),
{
    let l = ps.len() - 1;
    if ps.last().team@ == team && ps.last().level >= 8 {
        assert(ps[l].team@ == team);
    } else {
        lemma_level8_witness(ps.drop_last(), team);
        let j = choose|j: int|
            0 <= j < ps.drop_last().len() && #[trigger] ps.drop_last()[j].team@ == team
                && ps.drop_last()[j].level >= 8;
        assert(ps[j] == ps.drop_last()[j]);
    }
}

pub proof fn lemma_join_push(ws: Seq<Seq<char>>, w: Seq<char>)
    ensures
        join_space(ws.push(w)) == if ws.len() == 0 {
            w
        } else {
            join_space(ws) + seq![' '] + w
        },
{
    assert(ws.push(w).drop_last() =~= ws);
}

/// Appends the word `w` to the space-separated text `s` of the words `ws`.
fn push_word(s: &mut String, w: &str, first: bool, Ghost(ws): Ghost<Seq<Seq<char>>>)
    requires
        old(s)@ == join_space(ws),
        first == (ws.len() == 0),
    ensures
        final(s)@ == join_space(ws.push(w@)),
{
    proof {
        lemma_join_push(ws, w@);
        reveal_strlit(" ");
    }
    if !first {
        s.append(" ");
    }
    s.append(w);
    proof {
        if ws.len() == 0 {
            assert(old(s)@ =~= Seq::<char>::empty());
            assert(s@ =~= w@);
        } else {
            assert(s@ =~= join_space(ws) + seq![' '] + w@);
        }
    }
}

impl World {
    /// Returns the space-separated `Look`-style contents of a tile: one
    /// `player` word per player standing on it, then one word per resource
    /// unit present.
    pub fn get_tile_content(&self, x: u32, y: u32) -> (res: String)
        requires
            y * self.width + x < self.tiles@.len(),
            self.tiles@.len() <= u32::MAX,
        ensures
            res@ == tile_content(
                players_on(self.players@, x, y),
                self.tile_at(x as nat, y as nat).resources,
            ),
    {
        let mut s = String::new();
        let ghost mut ws: Seq<Seq<char>> = Seq::empty();
        let mut first = true;
        let mut i: usize = 0;
        while i < self.players.len()
            invariant
                first == (ws.len() == 0),
                i <= self.players@.len(),
                ws == repeat_word("player"@, players_on(self.players@.take(i as int), x, y)),
                s@ == join_space(ws),
            decreases self.players.len() - i,
        {
            assert(self.players@.take(i + 1).drop_last() =~= self.players@.take(i as int));
            if self.players[i].x == x && self.players[i].y == y {
                push_word(&mut s, "player", first, Ghost(ws));
                first = false;
                proof {
                    ws = ws.push("player"@);
                    assert(ws =~= repeat_word(
                        "player"@,
                        players_on(self.players@.take(i + 1), x, y),
                    ));
                }
            }
            i = i + 1;
        }
        assert(self.players@.take(self.players@.len() as int) =~= self.players@);
        let ghost head = ws;
        let tile = self.get_tile(x, y);
        let all = Resource::all();
        let mut ri: usize = 0;
        assert(head + resource_words(tile.resources, 0) =~= head);
        while ri < 7
            invariant
                first == (ws.len() == 0),
                all@ == all_resources(),
                ri <= 7,
                ws == head + resource_words(tile.resources, ri as nat),
                s@ == join_space(ws),
            decreases 7 - ri,
        {
            let r = all[ri];
            let count = tile.resources.get(r);
            let name = r.to_str();
            let ghost base = ws;
            let mut k: u32 = 0;
            while k < count
                invariant
                    first == (ws.len() == 0),
                    k <= count,
                    ws == base + repeat_word(resource_name(r), k as nat),
                    s@ == join_space(ws),
                    name@ == resource_name(r),
                decreases count - k,
            {
                push_word(&mut s, name, first, Ghost(ws));
                first = false;
                proof {
                    ws = ws.push(name@);
                    assert(ws =~= base + repeat_word(resource_name(r), (k + 1) as nat));
                }
                k = k + 1;
            }
            assert(ws =~= head + resource_words(tile.resources, (ri + 1) as nat));
            ri = ri + 1;
        }
        s
    }

    /// How many players of team `team` have reached level 8.
    pub fn count_level8(&self, team: &String) -> (res: usize)
        ensures
            res == level8_count(self.players@, team@),
    {
        let mut n: usize = 0;
        let mut i: usize = 0;
        while i < self.players.len()
            invariant
                i <= self.players@.len(),
                n == level8_count(self.players@.take(i as int), team@),
                n <= i,
            decreases self.players.len() - i,
        {
            assert(self.players@.take(i + 1).drop_last() =~= self.players@.take(i as int));
            if self.players[i].level >= 8 && self.players[i].team == *team {
                n = n + 1;
            }
            i = i + 1;
        }
        assert(self.players@.take(self.players@.len() as int) =~= self.players@);
        n
    }

    /// Returns the winning team's name if a team has at least six players
    /// who have reached the maximum level (8), otherwise `None`.
    pub fn check_victory(&self) -> (res: Option<String>)
        ensures
            match res {
                Some(t) => level8_count(self.players@, t@) >= 6,
                None => forall|t: Seq<char>| level8_count(self.players@, t) < 6,
            },
            victor(self.players@, self.players@) == match res {
                Some(t) => Some(t@),
                None => None,
            },
    {
        let ghost all = self.players@;
        assert(all.skip(0) =~= all);
        let mut i: usize = 0;
        while i < self.players.len()
            invariant
                all == self.players@,
                i <= self.players@.len(),
                victor(all.skip(i as int), all) == victor(all, all),
                forall|j: int|
                    0 <= j < i && self.players@[j].level >= 8 ==> level8_count(
                        self.players@,
                        #[trigger] self.players@[j].team@,
                    ) < 6,
            decreases self.players.len() - i,
        {
            assert(all.skip(i as int)[0] == all[i as int]);
            if self.players[i].level >= 8 {
                let n = self.count_level8(&self.players[i].team);
                if n >= 6 {
                    return Some(self.players[i].team.clone());
                }
            }
            assert(all.skip(i as int).drop_first() =~= all.skip(i + 1));
            i = i + 1;
        }
        assert(all.skip(i as int) =~= Seq::<Player>::empty());
        proof {
            assert forall|t: Seq<char>| level8_count(self.players@, t) < 6 by {
                if level8_count(self.players@, t) >= 6 {
                    lemma_level8_witness(self.players@, t);
                    let j = choose|j: int|
                        0 <= j < self.players@.len() && #[trigger] self.players@[j].team@ == t
                            && self.players@[j].level >= 8;
                }
            }
        }
        None
    }
}

/// The team of the first of `ps` who reached level 8 in a team with at
/// least six such players among `all`.
pub open spec fn victor(ps: Seq<Player>, all: Seq<Player>) -> Option<Seq<char>>
    decreases ps.len(),
{
    if ps.len() == 0 {
        None
    } else if ps[0].level >= 8 && level8_count(all, ps[0].team@) >= 6 {
        Some(ps[0].team@)
    } else {
        victor(ps.drop_first(), all)
    }
}

impl World {
    /// The players, teams and eggs of `self` and `other` agree on
    /// everything the structural invariant looks at, except the players'
    /// positions, which stay on the map.
    pub open spec fn same_shape(self, other: World) -> bool {
        &&& self.same_ground(other)
        &&& self.team_slots@ == other.team_slots@
        &&& self.eggs@ == other.eggs@
        &&& self.next_player_id == other.next_player_id
        &&& self.players@.len() == other.players@.len()
        &&& forall|j: int|
            0 <= j < self.players@.len() ==> {
                &&& (#[trigger] self.players@[j]).id == other.players@[j].id
                &&& self.players@[j].x < self.width
                &&& self.players@[j].y < self.height
            }
    }
}

impl World {
    /// The players of `self` have the queued commands, and the end of their
    /// last command, of the players of `other` at the same places.
    pub open spec fn same_queues(self, other: World) -> bool {
        &&& self.players@.len() == other.players@.len()
        &&& forall|j: int|
            0 <= j < self.players@.len() ==> {
                &&& (#[trigger] self.players@[j]).commands == other.players@[j].commands
                &&& self.players@[j].last_command_end == other.players@[j].last_command_end
            }
    }

    /// `self` has the players of `other`: as many, with the same ids, in the
    /// same order.
    pub open spec fn same_roster(self, other: World) -> bool {
        &&& self.players@.len() == other.players@.len()
        &&& forall|j: int|
            0 <= j < self.players@.len() ==> (#[trigger] self.players@[j]).id == other.players@[j].id
    }
}

/// Changing players without changing their ids, and keeping them on the
/// map, keeps a world well formed.
pub proof fn lemma_wf_same_shape(old: World, new: World)
    requires
        old.wf(),
        new.same_shape(old),
    ensures
        new.wf(),
{
    assert forall|a: int, b: int|
        0 <= a < new.players@.len() && 0 <= b < new.players@.len() && a != b implies #[trigger] new.players@[a].id
        != #[trigger] new.players@[b].id by {
        assert(old.players@[a].id != old.players@[b].id);
    }
    assert forall|a: int| 0 <= a < new.players@.len() implies {
        let p = #[trigger] new.players@[a];
        &&& p.x < new.width
        &&& p.y < new.height
        &&& p.id < new.next_player_id
    } by {
        assert(old.players@[a].id < old.next_player_id);
    }
}

/// Replacing one player by one with the same id, on the map, keeps the
/// world's shape.
pub proof fn lemma_same_shape_update(old: World, new: World, i: int, p: Player)
    requires
        old.wf(),
        0 <= i < old.players@.len(),
        p.id == old.players@[i].id,
        p.x < old.width,
        p.y < old.height,
        new.players@ == old.players@.update(i, p),
        new.same_ground(old),
        new.team_slots@ == old.team_slots@,
        new.eggs@ == old.eggs@,
        new.next_player_id == old.next_player_id,
    ensures
        new.same_shape(old),
        new.wf(),
{
    assert forall|j: int| 0 <= j < new.players@.len() implies {
        &&& (#[trigger] new.players@[j]).id == old.players@[j].id
        &&& new.players@[j].x < new.width
        &&& new.players@[j].y < new.height
    } by {
        if j != i {
            assert(new.players@[j] == old.players@[j]);
        }
    }
    lemma_wf_same_shape(old, new);
}
} // verus!
