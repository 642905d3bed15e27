//! Player-related GUI requests: `ppo`, `plv`, `pin`.

use vstd::prelude::*;
use crate::clock::now_nanos;
use crate::game::commands::interaction::{shown, shown_counts};
use crate::game::player::orientation_number;
use crate::game::world::{World, has_player};
use crate::lines::{self, pin_line, ppo_line, tagged_value_line};
use crate::protocol::gui::GuiCommand;

verus! {

/// The answer to a player request at time `now`: the player's position,
/// level or inventory, or `sbp` for an unknown player.
pub open spec fn player_answer(command: GuiCommand, world: World, now: nat) -> Seq<Seq<char>> {
    match command {
        GuiCommand::PlayerPosition(id) => if has_player(world.players@, id) {
            let p = world.player_with(id);
            seq![ppo_line(id as nat, p.x as nat, p.y as nat, orientation_number(p.direction) as nat)]
        } else {
            seq!["sbp\n"@]
        },
        GuiCommand::PlayerLevel(id) => if has_player(world.players@, id) {
            seq![tagged_value_line("plv"@, id as nat, world.player_with(id).level as nat)]
        } else {
            seq!["sbp\n"@]
        },
        GuiCommand::PlayerInventory(id) => if has_player(world.players@, id) {
            let p = world.player_with(id);
            seq![pin_line(id as nat, p.x as nat, p.y as nat, shown_counts(p, now, world.freq as nat))]
        } else {
            seq!["sbp\n"@]
        },
        _ => Seq::empty(),
    }
}

/// Answers the player requests (`ppo`, `plv`, `pin`) at time `now`; other
/// requests get no answer here.
pub fn execute_at(command: GuiCommand, world: &World, now: u64) -> (res: Vec<String>)
    requires
        world.wf(),
    ensures
        res@.map_values(|s: String| s@) == player_answer(command, *world, now as nat),
{
    let mut responses: Vec<String> = Vec::new();
    match command {
        GuiCommand::PlayerPosition(id) => match world.find_player(id) {
            Some(i) => {
                let p = &world.players[i];
                responses.push(lines::ppo(id, p.x, p.y, p.direction.orientation()));
            },
            None => responses.push(lines::fixed("sbp\n")),
        },
        GuiCommand::PlayerLevel(id) => match world.find_player(id) {
            Some(i) => {
                responses.push(lines::tagged_value("plv", id as u64, world.players[i].level as u64));
            },
            None => responses.push(lines::fixed("sbp\n")),
        },
        GuiCommand::PlayerInventory(id) => match world.find_player(id) {
            Some(i) => {
                let p = &world.players[i];
                let c = shown(p, world.freq, now);
                responses.push(lines::pin(id, p.x, p.y, &c));
            },
            None => responses.push(lines::fixed("sbp\n")),
        },
        _ => {},
    }
    assert(responses@.map_values(|s: String| s@) =~= player_answer(command, *world, now as nat));
    responses
}

/// Answers the player requests (`ppo`, `plv`, `pin`) at the current time.
pub fn execute(command: GuiCommand, world: &World) -> (res: Vec<String>)
    requires
        world.wf(),
    ensures
        exists|now: nat| res@.map_values(|s: String| s@) == player_answer(command, *world, now),
{
    let now = now_nanos();
    execute_at(command, world, now)
}

} // verus!
