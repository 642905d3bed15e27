//! Players: their facing, their queue of commands, and the time-based food
//! model.
//!
//! Food is not stored as a counter: it is a deadline. One unit of food lasts
//! 126 time units, a time unit lasts `1 / freq` seconds, and a new player
//! holds 10 units. Times are nanoseconds of the server clock.

use std::collections::VecDeque;
use vstd::prelude::*;
use crate::clock::now_nanos;
use crate::game::world::ResourceCounts;
use crate::protocol::PendingCommand;

verus! {

/// Nanoseconds in a second.
pub const NANOS_PER_SEC: u64 = 1_000_000_000u64;

/// Time units that one unit of food keeps a player alive.
pub const FOOD_UNIT_TIME: u64 = 126u64;

/// Time units that a new player can live without eating (10 food units).
pub const INITIAL_LIFE_TIME: u64 = 1260u64;

/// Food units that a new player holds.
pub const INITIAL_FOOD: u32 = 10u32;

/// `a + b`, or `u64::MAX` when that does not fit.
pub open spec fn sat_add(a: nat, b: nat) -> u64 {
    if a + b <= u64::MAX {
        (a + b) as u64
    } else {
        u64::MAX
    }
}

/// `a - b`, or 0 when that would be negative.
pub open spec fn sat_sub(a: nat, b: nat) -> u64 {
    if a >= b {
        (a - b) as u64
    } else {
        0
    }
}

/// How many nanoseconds `units` time units last at frequency `freq`.
pub open spec fn units_to_nanos(units: nat, freq: nat) -> nat {
    (units * NANOS_PER_SEC) as nat / freq
}

/// `ceil(a / b)`.
pub open spec fn ceil_div(a: nat, b: nat) -> nat {
    ((a + b - 1) as nat) / b
}

/// The food units that remain to a player who dies at `death_time`, seen at
/// `now`: the remaining time divided by the duration of one unit, rounded
/// up, and capped at `u32::MAX`.
pub open spec fn food_left(death_time: nat, now: nat, freq: nat) -> u32 {
    if now >= death_time {
        0
    } else {
        let units = ceil_div(
            ((death_time - now) * freq) as nat,
            (FOOD_UNIT_TIME * NANOS_PER_SEC) as nat,
        );
        if units <= u32::MAX {
            units as u32
        } else {
            u32::MAX
        }
    }
}

/// How many nanoseconds `units` time units last at frequency `freq`.
pub fn time_units_to_nanos(units: u64, freq: u32) -> (res: u64)
    requires
        freq > 0,
        units <= 1_000_000_000u64,
    ensures
        res == units_to_nanos(units as nat, freq as nat),
{
    assert(units * NANOS_PER_SEC <= u64::MAX) by (nonlinear_arith)
        requires
            units <= 1_000_000_000u64,
    ;
    (units * NANOS_PER_SEC) / (freq as u64)
}

/// Taking one unit of food then dropping it gives the player back its
/// time of death, unless that time was too close to the largest instant.
pub proof fn lemma_food_round_trip(death_time: u64, freq: u32)
    requires
        freq > 0,
        death_time + units_to_nanos(FOOD_UNIT_TIME as nat, freq as nat) <= u64::MAX,
    ensures
        sat_sub(
            sat_add(death_time as nat, units_to_nanos(FOOD_UNIT_TIME as nat, freq as nat)) as nat,
            units_to_nanos(FOOD_UNIT_TIME as nat, freq as nat),
        ) == death_time,
{
}

/// The food a player has left never grows as time passes.
pub proof fn lemma_food_left_decreases(death_time: nat, t1: nat, t2: nat, freq: nat)
    requires
        t1 <= t2,
    ensures
        food_left(death_time, t2, freq) <= food_left(death_time, t1, freq),
{
    if t2 < death_time {
        let u = (FOOD_UNIT_TIME * NANOS_PER_SEC) as nat;
        let a1 = ((death_time - t1) * freq) as nat;
        let a2 = ((death_time - t2) * freq) as nat;
        assert(a2 <= a1) by (nonlinear_arith)
            requires
                a1 == (death_time - t1) * freq,
                a2 == (death_time - t2) * freq,
                t1 <= t2,
                t2 < death_time,
        ;
        vstd::arithmetic::div_mod::lemma_div_is_ordered((a2 + u - 1) as int, (a1 + u - 1) as int, u as int);
        assert(ceil_div(a2, u) <= ceil_div(a1, u));
    }
}

/// One unit of food, given to a living player, raises the food it has left
/// by at most one, and by exactly one where the unit lasts a whole number of
/// nanoseconds at `freq` and the count is below its cap.
pub proof fn lemma_food_unit_adds_one(death_time: u64, now: u64, freq: u32)
    requires
        freq > 0,
        now < death_time,
        death_time + units_to_nanos(FOOD_UNIT_TIME as nat, freq as nat) <= u64::MAX,
    ensures
        ({
            let before = food_left(death_time as nat, now as nat, freq as nat);
            let after = food_left(
                sat_add(death_time as nat, units_to_nanos(FOOD_UNIT_TIME as nat, freq as nat)) as nat,
                now as nat,
                freq as nat,
            );
            &&& before <= after <= before + 1
            &&& (FOOD_UNIT_TIME * NANOS_PER_SEC) as nat % (freq as nat) == 0 && before < u32::MAX
                ==> after == before + 1
        }),
{
    let big: int = (FOOD_UNIT_TIME * NANOS_PER_SEC) as int;
    let f: int = freq as int;
    let u: int = units_to_nanos(FOOD_UNIT_TIME as nat, freq as nat) as int;
    vstd::arithmetic::div_mod::lemma_fundamental_div_mod(big, f);
    vstd::arithmetic::div_mod::lemma_mod_pos_bound(big, f);
    let r: int = big % f;
    assert(u == big / f);
    let later: int = death_time + u;
    let a: int = (death_time - now) * f;
    let a2: int = (later - now) * f;
    assert(a > 0 && a2 == a + u * f) by (nonlinear_arith)
        requires
            a == (death_time - now) * f,
            a2 == (later - now) * f,
            later == death_time + u,
            death_time > now,
            f > 0,
    ;
    assert(u * f == big - r) by (nonlinear_arith)
        requires
            big == f * u + r,
    ;
    let x: int = a + big - 1;
    vstd::arithmetic::div_mod::lemma_fundamental_div_mod(x, big);
    vstd::arithmetic::div_mod::lemma_mod_pos_bound(x, big);
    let q: int = x / big;
    let m: int = x % big;
    let x2: int = a2 + big - 1;
    assert(x2 == x + big - r);
    assert(r < big);
    assert(x2 == (q + 1) * big + (m - r) && x2 == q * big + (big + m - r)) by (nonlinear_arith)
        requires
            x == big * q + m,
            x2 == x + big - r,
    ;
    if m >= r {
        vstd::arithmetic::div_mod::lemma_fundamental_div_mod_converse(x2, big, q + 1, m - r);
    } else {
        vstd::arithmetic::div_mod::lemma_fundamental_div_mod_converse(x2, big, q, big + m - r);
    }
    assert(ceil_div(a as nat, big as nat) == q);
    assert(sat_add(death_time as nat, u as nat) == later);
    assert(ceil_div(a2 as nat, big as nat) == x2 / big);
}

/// The four cardinal directions a player can face.
#[derive(Debug, Clone, Copy, PartialEq, Eq, Structural)]
pub enum Direction {
    North,
    East,
    South,
    West,
}

pub open spec fn right_of(d: Direction) -> Direction {
    match d {
        Direction::North => Direction::East,
        Direction::East => Direction::South,
        Direction::South => Direction::West,
        Direction::West => Direction::North,
    }
}

pub open spec fn left_of(d: Direction) -> Direction {
    match d {
        Direction::North => Direction::West,
        Direction::West => Direction::South,
        Direction::South => Direction::East,
        Direction::East => Direction::North,
    }
}

/// The GUI protocol number of a facing: 1 North, 2 East, 3 South, 4 West.
pub open spec fn orientation_number(d: Direction) -> u32 {
    match d {
        Direction::North => 1,
        Direction::East => 2,
        Direction::South => 3,
        Direction::West => 4,
    }
}

/// The facing with protocol number `n + 1` (0 North, 1 East, 2 South,
/// anything else West).
pub open spec fn direction_from_index(n: u32) -> Direction {
    if n == 0 {
        Direction::North
    } else if n == 1 {
        Direction::East
    } else if n == 2 {
        Direction::South
    } else {
        Direction::West
    }
}

impl Direction {
    /// Returns the direction after a 90-degree right turn.
    pub fn turn_right(self) -> (res: Direction)
        ensures
            res == right_of(self),
    {
        match self {
            Direction::North => Direction::East,
            Direction::East => Direction::South,
            Direction::South => Direction::West,
            Direction::West => Direction::North,
        }
    }

    /// Returns the direction after a 90-degree left turn.
    pub fn turn_left(self) -> (res: Direction)
        ensures
            res == left_of(self),
    {
        match self {
            Direction::North => Direction::West,
            Direction::West => Direction::South,
            Direction::South => Direction::East,
            Direction::East => Direction::North,
        }
    }

    /// The GUI protocol number of the facing.
    pub fn orientation(self) -> (res: u32)
        ensures
            res == orientation_number(self),
    {
        match self {
            Direction::North => 1,
            Direction::East => 2,
            Direction::South => 3,
            Direction::West => 4,
        }
    }

    /// The facing drawn from a number in `0..4`.
    pub fn from_index(n: u32) -> (res: Direction)
        ensures
            res == direction_from_index(n),
    {
        if n == 0 {
            Direction::North
        } else if n == 1 {
            Direction::East
        } else if n == 2 {
            Direction::South
        } else {
            Direction::West
        }
    }
}

/// Turning right undoes turning left, and the other way round; four turns
/// the same way come back to the start.
pub proof fn lemma_turns_inverse(d: Direction)
    ensures
        left_of(right_of(d)) == d,
        right_of(left_of(d)) == d,
        right_of(right_of(right_of(right_of(d)))) == d,
        left_of(left_of(left_of(left_of(d)))) == d,
{
}

/// Represents an inhabitant of Trantor (a player).
pub struct Player {
    /// Unique identifier for the player.
    pub id: usize,
    /// Current X position on the map.
    pub x: u32,
    /// Current Y position on the map.
    pub y: u32,
    /// Current direction the player is facing.
    pub direction: Direction,
    /// Current elevation level of the player (starts at 1).
    pub level: u32,
    /// Stones carried by the player (food is time-based, see `death_time`).
    pub inventory: ResourceCounts,
    /// The name of the team the player belongs to.
    pub team: String,
    /// Queue of commands waiting to be executed (max 10).
    pub commands: VecDeque<PendingCommand>,
    /// Time when the last queued command will finish.
    pub last_command_end: u64,
    /// Moment of death by hunger.
    pub death_time: u64,
    /// Messages waiting to be delivered to the player's client.
    pub notifications: VecDeque<String>,
    /// The food count last reported to the graphical clients.
    pub last_food_count: u32,
}

impl Player {
    /// `self` is a player just created with these attributes at `now`.
    pub open spec fn is_new(
        self,
        id: usize,
        x: u32,
        y: u32,
        direction: Direction,
        team: Seq<char>,
        freq: nat,
        now: nat,
    ) -> bool {
        &&& self.id == id
        &&& self.x == x
        &&& self.y == y
        &&& self.direction == direction
        &&& self.level == 1
        &&& self.inventory == ResourceCounts::zero()
        &&& self.team@ == team
        &&& self.commands@.len() == 0
        &&& self.notifications@.len() == 0
        &&& self.last_command_end == now
        &&& self.death_time == sat_add(now, units_to_nanos(INITIAL_LIFE_TIME as nat, freq))
        &&& self.last_food_count == INITIAL_FOOD
    }

    /// Creates a player at `now`, holding 10 units of food.
    pub fn new_at(
        id: usize,
        x: u32,
        y: u32,
        direction: Direction,
        team: String,
        freq: u32,
        now: u64,
    ) -> (res: Player)
        requires
            freq > 0,
        ensures
            res.is_new(id, x, y, direction, team@, freq as nat, now as nat),
    {
        let life = time_units_to_nanos(INITIAL_LIFE_TIME, freq);
        Player {
            id,
            x,
            y,
            direction,
            level: 1,
            inventory: ResourceCounts::new(),
            team,
            commands: VecDeque::new(),
            last_command_end: now,
            death_time: now.saturating_add(life),
            notifications: VecDeque::new(),
            last_food_count: INITIAL_FOOD,
        }
    }

    /// Creates a new player at the current time, holding 10 units of food.
    pub fn new(id: usize, x: u32, y: u32, direction: Direction, team: String, freq: u32) -> (res:
        Player)
        requires
            freq > 0,
        ensures
            exists|now: nat| res.is_new(id, x, y, direction, team@, freq as nat, now),
    {
        let now = now_nanos();
        Player::new_at(id, x, y, direction, team, freq, now)
    }

    /// Adds one unit of food (126 time units) to the player's lifespan.
    pub fn add_food(&mut self, freq: u32)
        requires
            freq > 0,
        ensures
            final(self).death_time == sat_add(
                old(self).death_time as nat,
                units_to_nanos(FOOD_UNIT_TIME as nat, freq as nat),
            ),
            *final(self) == (Player { death_time: final(self).death_time, ..*old(self) }),
    {
        let d = time_units_to_nanos(FOOD_UNIT_TIME, freq);
        self.death_time = self.death_time.saturating_add(d);
    }

    /// Removes one unit of food (126 time units) from the player's lifespan.
    pub fn remove_food(&mut self, freq: u32)
        requires
            freq > 0,
        ensures
            final(self).death_time == sat_sub(
                old(self).death_time as nat,
                units_to_nanos(FOOD_UNIT_TIME as nat, freq as nat),
            ),
            *final(self) == (Player { death_time: final(self).death_time, ..*old(self) }),
    {
        let d = time_units_to_nanos(FOOD_UNIT_TIME, freq);
        self.death_time = self.death_time.saturating_sub(d);
    }

    /// The food units left at `now`.
    pub fn food_count_at(&self, freq: u32, now: u64) -> (res: u32)
        requires
            freq > 0,
        ensures
            res == food_left(self.death_time as nat, now as nat, freq as nat),
    {
        if now >= self.death_time {
            return 0;
        }
        let remaining = (self.death_time - now) as u128;
        let unit = (FOOD_UNIT_TIME * NANOS_PER_SEC) as u128;
        assert(remaining * (freq as u128) <= u64::MAX * u32::MAX) by (nonlinear_arith)
            requires
                remaining <= u64::MAX,
                freq <= u32::MAX,
        ;
        let scaled = remaining * (freq as u128);
        let units = (scaled + unit - 1) / unit;
        if units <= u32::MAX as u128 {
            units as u32
        } else {
            u32::MAX
        }
    }

    /// Calculates the remaining units of food from the time left to live.
    pub fn get_food_count(&self, freq: u32) -> (res: u32)
        requires
            freq > 0,
        ensures
            exists|now: nat| res == food_left(self.death_time as nat, now, freq as nat),
    {
        let now = now_nanos();
        self.food_count_at(freq, now)
    }
}

} // verus!
