//! Time-related GUI requests: `sgt`, `sst`.
//!
//! Changing the frequency rescales the remaining time of every pending
//! deadline (deaths, queued commands, egg expiries, the next respawn), so
//! that the game goes on faster or slower from the current instant.

use std::collections::VecDeque;
use vstd::prelude::*;
use crate::clock::now_nanos;
use crate::config::ServerConfig;
use crate::game::player::{Player, sat_add};
use crate::game::world::{Egg, World};
use crate::lines::{self, value_line};
use crate::protocol::PendingCommand;
use crate::protocol::gui::GuiCommand;

verus! {

/// A deadline `t` seen at `now`, once the frequency goes from `old_f` to
/// `new_f`: the remaining time is scaled by `old_f / new_f`; past deadlines
/// stay as they are.
pub open spec fn rescaled(t: u64, now: u64, old_f: u32, new_f: u32) -> u64 {
    if t > now {
        sat_add(now as nat, (((t - now) * old_f) as nat / new_f as nat) as nat)
    } else {
        t
    }
}

/// The expiry `t` of an egg, rescaled as [`rescaled`] says; `u64::MAX`
/// marks an egg that never expires and stays as it is.
pub open spec fn egg_rescaled(t: u64, now: u64, old_f: u32, new_f: u32) -> u64 {
    if t == u64::MAX {
        t
    } else {
        rescaled(t, now, old_f, new_f)
    }
}

/// Egg `e` with its expiry rescaled.
pub open spec fn rescaled_egg(e: Egg, now: u64, old_f: u32, new_f: u32) -> Egg {
    Egg { death_time: egg_rescaled(e.death_time, now, old_f, new_f), ..e }
}

/// Player `p` with all its deadlines rescaled (its queue of commands is
/// described apart).
pub open spec fn rescaled_player(p: Player, q: Player, now: u64, old_f: u32, new_f: u32) -> bool {
    &&& q == (Player {
        death_time: rescaled(p.death_time, now, old_f, new_f),
        last_command_end: rescaled(p.last_command_end, now, old_f, new_f),
        commands: q.commands,
        ..p
    })
    &&& q.commands@.len() == p.commands@.len()
    &&& forall|k: int|
        0 <= k < p.commands@.len() ==> #[trigger] q.commands@[k] == (PendingCommand {
            end_time: rescaled(p.commands@[k].end_time, now, old_f, new_f),
            ..p.commands@[k]
        })
}

/// The frequency change is applied: `sst T` with `T` positive and different
/// from the current frequency.
pub open spec fn changes_freq(command: GuiCommand, config: ServerConfig) -> bool {
    command matches GuiCommand::TimeUpdate(f) && f > 0 && f != config.freq
}

/// The effect of a time request at `now`.
pub open spec fn time_effect(
    command: GuiCommand,
    old_world: World,
    new_world: World,
    old_config: ServerConfig,
    new_config: ServerConfig,
    now: u64,
    res: Seq<Seq<char>>,
) -> bool {
    match command {
        GuiCommand::TimeRequest => {
            &&& res == seq![value_line("sgt"@, old_config.freq as nat)]
            &&& new_world == old_world
            &&& new_config == old_config
        },
        GuiCommand::TimeUpdate(f) => if changes_freq(command, old_config) {
            &&& res == seq![value_line("sst"@, f as nat)]
            &&& new_config == (ServerConfig { freq: f, ..old_config })
            &&& new_world == (World {
                players: new_world.players,
                eggs: new_world.eggs,
                freq: f,
                next_spawn_time: rescaled(old_world.next_spawn_time, now, old_config.freq, f),
                ..old_world
            })
            &&& new_world.eggs@.len() == old_world.eggs@.len()
            &&& forall|e: int|
                0 <= e < old_world.eggs@.len() ==> #[trigger] new_world.eggs@[e] == rescaled_egg(
                    old_world.eggs@[e],
                    now,
                    old_config.freq,
                    f,
                )
            &&& new_world.players@.len() == old_world.players@.len()
            &&& forall|j: int|
                0 <= j < old_world.players@.len() ==> rescaled_player(
                    #[trigger] old_world.players@[j],
                    new_world.players@[j],
                    now,
                    old_config.freq,
                    f,
                )
        } else {
            &&& res == seq![value_line("sst"@, old_config.freq as nat)]
            &&& new_world == old_world
            &&& new_config == old_config
        },
        _ => {
            &&& res == Seq::<Seq<char>>::empty()
            &&& new_world == old_world
            &&& new_config == old_config
        },
    }
}

fn rescale(t: u64, now: u64, old_f: u32, new_f: u32) -> (res: u64)
    requires
        new_f > 0,
    ensures
        res == rescaled(t, now, old_f, new_f),
{
    if t > now {
        let remaining = (t - now) as u128;
        assert(remaining * (old_f as u128) <= u64::MAX * u32::MAX) by (nonlinear_arith)
            requires
                remaining <= u64::MAX,
                old_f <= u32::MAX,
        ;
        let scaled = remaining * (old_f as u128) / (new_f as u128);
        let sum = now as u128 + scaled;
        if sum <= u64::MAX as u128 {
            sum as u64
        } else {
            u64::MAX
        }
    } else {
        t
    }
}

fn rescale_queue(q: &mut VecDeque<PendingCommand>, now: u64, old_f: u32, new_f: u32)
    requires
        new_f > 0,
    ensures
        final(q)@.len() == old(q)@.len(),
        forall|k: int|
            0 <= k < old(q)@.len() ==> #[trigger] final(q)@[k] == (PendingCommand {
                end_time: rescaled(old(q)@[k].end_time, now, old_f, new_f),
                ..old(q)@[k]
            }),
{
    let ghost orig = q@;
    let mut out: VecDeque<PendingCommand> = VecDeque::new();
    let n = q.len();
    let mut k: usize = 0;
    while k < n
        invariant
            k <= n,
            n == orig.len(),
            q@ == orig.subrange(k as int, n as int),
            out@.len() == k,
            forall|j: int|
                0 <= j < k ==> #[trigger] out@[j] == (PendingCommand {
                    end_time: rescaled(orig[j].end_time, now, old_f, new_f),
                    ..orig[j]
                }),
            new_f > 0,
        decreases n - k,
    {
        let c = q.pop_front().unwrap();
        assert(c == orig[k as int]);
        let e = rescale(c.end_time, now, old_f, new_f);
        out.push_back(PendingCommand { end_time: e, ..c });
        k = k + 1;
        assert(q@ =~= orig.subrange(k as int, n as int));
    }
    *q = out;
}

/// Answers the time requests (`sgt`, `sst`) at time `now`; `sst T` with a
/// positive `T` different from the current frequency sets the frequency and
/// rescales every pending deadline: deaths, ends of commands, egg expiries
/// (but for eggs that never expire) and the next respawn.
pub fn execute_at(
    command: GuiCommand,
    world: &mut World,
    config: &mut ServerConfig,
    now: u64,
) -> (res: Vec<String>)
    requires
        old(world).wf(),
        old(world).freq == old(config).freq,
    ensures
        final(world).same_roster(*old(world)),
        final(world).wf(),
        final(world).freq == final(config).freq,
        time_effect(
            command,
            *old(world),
            *final(world),
            *old(config),
            *final(config),
            now,
            lines::texts(res@),
        ),
{
    match command {
        GuiCommand::TimeRequest => {
            let mut v: Vec<String> = Vec::new();
            v.push(lines::value("sgt", config.freq as u64));
            assert(v@.map_values(|s: String| s@) =~= seq![value_line("sgt"@, config.freq as nat)]);
            v
        },
        GuiCommand::TimeUpdate(new_freq) => {
            if new_freq > 0 && new_freq != config.freq {
                let old_freq = config.freq;
                let ghost old_world = *world;
                let n = world.players.len();
                let mut j: usize = 0;
                while j < n
                    invariant
                        j <= n,
                        n == world.players@.len(),
                        n == old_world.players@.len(),
                        new_freq > 0,
                        *world == (World { players: world.players, ..old_world }),
                        forall|k: int|
                            0 <= k < j ==> rescaled_player(
                                #[trigger] old_world.players@[k],
                                world.players@[k],
                                now,
                                old_freq,
                                new_freq,
                            ),
                        forall|k: int| j <= k < n ==> #[trigger] world.players@[k] == old_world.players@[k],
                    decreases n - j,
                {
                    let ghost before = world.players@;
                    let d = rescale(world.players[j].death_time, now, old_freq, new_freq);
                    world.players[j].death_time = d;
                    let l = rescale(world.players[j].last_command_end, now, old_freq, new_freq);
                    world.players[j].last_command_end = l;
                    rescale_queue(&mut world.players[j].commands, now, old_freq, new_freq);
                    proof {
                        assert forall|k: int| 0 <= k < j + 1 implies rescaled_player(
                            #[trigger] old_world.players@[k],
                            world.players@[k],
                            now,
                            old_freq,
                            new_freq,
                        ) by {
                            if k < j {
                                assert(world.players@[k] == before[k]);
                            }
                        }
                    }
                    j = j + 1;
                }
                let ghost after_players = *world;
                let m = world.eggs.len();
                let mut j: usize = 0;
                while j < m
                    invariant
                        j <= m,
                        m == world.eggs@.len(),
                        m == old_world.eggs@.len(),
                        new_freq > 0,
                        *world == (World { eggs: world.eggs, ..after_players }),
                        forall|k: int|
                            0 <= k < j ==> #[trigger] world.eggs@[k] == rescaled_egg(
                                old_world.eggs@[k],
                                now,
                                old_freq,
                                new_freq,
                            ),
                        forall|k: int| j <= k < m ==> #[trigger] world.eggs@[k] == old_world.eggs@[k],
                    decreases m - j,
                {
                    let t = world.eggs[j].death_time;
                    if t != u64::MAX {
                        let d = rescale(t, now, old_freq, new_freq);
                        world.eggs[j].death_time = d;
                    }
                    j = j + 1;
                }
                world.next_spawn_time = rescale(world.next_spawn_time, now, old_freq, new_freq);
                world.freq = new_freq;
                config.freq = new_freq;
                assert(*world == (World {
                    players: world.players,
                    eggs: world.eggs,
                    freq: new_freq,
                    next_spawn_time: rescaled(old_world.next_spawn_time, now, old_freq, new_freq),
                    ..old_world
                }));
                assert(*config == (ServerConfig { freq: new_freq, ..*old(config) }));
                proof {
                    assert forall|k: int| 0 <= k < world.players@.len() implies {
                        &&& (#[trigger] world.players@[k]).id == old_world.players@[k].id
                        &&& world.players@[k].x < world.width
                        &&& world.players@[k].y < world.height
                    } by {
                        assert(rescaled_player(old_world.players@[k], world.players@[k], now, old_freq, new_freq));
                    }
                    let mid = World {
                        freq: new_freq,
                        next_spawn_time: world.next_spawn_time,
                        eggs: world.eggs,
                        ..old_world
                    };
                    assert forall|k: int| 0 <= k < mid.eggs@.len() implies {
                        &&& (#[trigger] mid.eggs@[k]).x < mid.width
                        &&& mid.eggs@[k].y < mid.height
                    } by {
                        assert(mid.eggs@[k] == rescaled_egg(old_world.eggs@[k], now, old_freq, new_freq));
                    }
                    assert(mid.wf());
                    crate::game::world::lemma_wf_same_shape(mid, *world);
                }
            }
            let mut v: Vec<String> = Vec::new();
            v.push(lines::value("sst", config.freq as u64));
            assert(v@.map_values(|s: String| s@) =~= seq![value_line("sst"@, config.freq as nat)]);
            v
        },
        _ => {
            let v: Vec<String> = Vec::new();
            assert(lines::texts(v@) =~= Seq::<Seq<char>>::empty());
            v
        },
    }
}

/// Answers the time requests (`sgt`, `sst`) at the current time.
pub fn execute(command: GuiCommand, world: &mut World, config: &mut ServerConfig) -> (res: Vec<
    String,
>)
    requires
        old(world).wf(),
        old(world).freq == old(config).freq,
    ensures
        final(world).wf(),
        final(world).freq == final(config).freq,
        exists|now: u64|
            #[trigger] time_effect(
                command,
                *old(world),
                *final(world),
                *old(config),
                *final(config),
                now,
                lines::texts(res@),
            ),
{
    let now = now_nanos();
    execute_at(command, world, config, now)
}

} // verus!
