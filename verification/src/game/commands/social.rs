//! Social commands: `Broadcast`.

use vstd::prelude::*;
use crate::game::commands::{acting, actor, compute_direction, notes, sound_direction};
use crate::game::player::Player;
use crate::game::world::{World, lemma_wf_same_shape};
use crate::lines::{self, message_line, pbc_line};
use crate::protocol::{Command, CommandModel};

verus! {

/// `b` is `a` with the message `m` queued for its client.
pub open spec fn told(a: Player, b: Player, m: Seq<char>) -> bool {
    &&& b == (Player { notifications: b.notifications, ..a })
    &&& notes(b) == notes(a).push(m)
}

/// What a broadcast of `text` by `s` does to player `q` of `world`: every
/// other player is told the text and the direction it comes from.
pub open spec fn heard(q: Player, r: Player, s: Player, text: Seq<char>, world: World) -> bool {
    if q.id != s.id {
        told(
            q,
            r,
            message_line(
                sound_direction(
                    q.x as int,
                    q.y as int,
                    q.direction,
                    s.x as int,
                    s.y as int,
                    world.width as int,
                    world.height as int,
                ) as nat,
                text,
            ),
        )
    } else {
        r == q
    }
}

/// The effect of a `Broadcast` of player `player_id` on `old`, giving
/// `new` and the answer `res`.
pub open spec fn broadcast_effect(
    command: CommandModel,
    player_id: usize,
    old: World,
    new: World,
    res: Seq<char>,
) -> bool {
        match command {
            CommandModel::Broadcast(text) => {
                let s = actor(old, player_id);
                &&& res == "ok\n"@
                &&& new.players@.len() == old.players@.len()
                &&& forall|j: int|
                    0 <= j < old.players@.len() ==> heard(
                        #[trigger] old.players@[j],
                        new.players@[j],
                        s,
                        text,
                        old,
                    )
                &&& new.events() == old.events().push(
                    pbc_line(player_id as nat, text),
                )
            },
            _ => {
                &&& res == "ko\n"@
                &&& new == old
            },
    }
}

/// Executes `Broadcast`: every other player receives
/// `message K, text` with `K` the direction of the sender as it hears it;
/// the graphical clients are told `pbc`. Any other command answers `ko`.
pub fn execute(command: Command, player_id: usize, world: &mut World) -> (res: String)
    requires
        acting(*old(world), player_id),
    ensures
        final(world).wf(),
        final(world).same_shape(*old(world)),
        *final(world) == (World {
            players: final(world).players,
            gui_events: final(world).gui_events,
            ..*old(world)
        }),
        broadcast_effect(command@, player_id, *old(world), *final(world), res@),
{
    let text = match command {
        Command::Broadcast(t) => t,
        _ => {
            proof {
                assert(world.same_shape(*old(world)));
            }
            return lines::fixed("ko\n");
        },
    };
    let i = world.find_player(player_id).unwrap();
    let ghost old_world = *world;
    let ghost s = world.players@[i as int];
    let sx = world.players[i].x;
    let sy = world.players[i].y;
    let w = world.width;
    let h = world.height;
    let n = world.players.len();
    let mut j: usize = 0;
    while j < n
        invariant
            old_world.wf(),
            i < n,
            n == world.players@.len(),
            n == old_world.players@.len(),
            s == old_world.players@[i as int],
            sx == s.x && sy == s.y && s.id == player_id,
            w == old_world.width && h == old_world.height,
            j <= n,
            *world == (World { players: world.players, ..old_world }),
            forall|k: int|
                0 <= k < j ==> heard(
                    #[trigger] old_world.players@[k],
                    world.players@[k],
                    s,
                    text@,
                    old_world,
                ),
            forall|k: int| j <= k < n ==> #[trigger] world.players@[k] == old_world.players@[k],
        decreases n - j,
    {
        let ghost before = *world;
        if world.players[j].id != player_id {
            let tx = world.players[j].x;
            let ty = world.players[j].y;
            proof {
                crate::game::commands::lemma_on_map_deltas(tx, ty, sx, sy, w, h);
            }
            let k = compute_direction(
                tx as i32,
                ty as i32,
                world.players[j].direction,
                sx as i32,
                sy as i32,
                w as i32,
                h as i32,
            );
            let msg = lines::message(k, text.as_str());
            world.players[j].notifications.push_back(msg);
            proof {
                assert(notes(world.players@[j as int]) =~= notes(before.players@[j as int]).push(msg@));
                assert forall|k: int| 0 <= k < j + 1 implies heard(
                    #[trigger] old_world.players@[k],
                    world.players@[k],
                    s,
                    text@,
                    old_world,
                ) by {
                    if k < j {
                        assert(world.players@[k] == before.players@[k]);
                    }
                }
            }
        }
        j = j + 1;
    }
    let line = lines::pbc(player_id, text.as_str());
    world.gui_events.push_back(line);
    proof {
        assert(world.events() =~= old_world.events().push(line@));
        assert forall|k: int| 0 <= k < world.players@.len() implies {
            &&& (#[trigger] world.players@[k]).id == old_world.players@[k].id
            &&& world.players@[k].x < world.width
            &&& world.players@[k].y < world.height
        } by {
            assert(heard(old_world.players@[k], world.players@[k], s, text@, old_world));
        }
        lemma_wf_same_shape(old_world, *world);
    }
    lines::fixed("ok\n")
}

} // verus!
