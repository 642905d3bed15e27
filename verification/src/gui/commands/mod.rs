//! Dispatch of the requests of graphical clients.

pub mod map;
pub mod player;
pub mod time;

use vstd::prelude::*;
use crate::clock::now_nanos;
use crate::config::ServerConfig;
use crate::game::world::World;
use crate::lines::texts;
use crate::protocol::gui::GuiCommand;

verus! {

/// The world and the configuration agree: the configuration's map is the
/// world's and so is its frequency.
pub open spec fn consistent(world: World, config: ServerConfig) -> bool {
    &&& world.wf()
    &&& config.width == world.width
    &&& config.height == world.height
    &&& config.freq == world.freq
}

/// The effect of a request of a graphical client at time `now`.
pub open spec fn gui_effect(
    command: GuiCommand,
    old_world: World,
    new_world: World,
    old_config: ServerConfig,
    new_config: ServerConfig,
    now: u64,
    res: Seq<Seq<char>>,
) -> bool {
    match command {
        GuiCommand::MapSize | GuiCommand::TileContent(_, _) | GuiCommand::MapContent
        | GuiCommand::TeamNames => {
            &&& res == map::map_answer(command, old_world, old_config)
            &&& new_world == old_world
            &&& new_config == old_config
        },
        GuiCommand::PlayerPosition(_) | GuiCommand::PlayerLevel(_) | GuiCommand::PlayerInventory(_) => {
            &&& res == player::player_answer(command, old_world, now as nat)
            &&& new_world == old_world
            &&& new_config == old_config
        },
        GuiCommand::TimeRequest | GuiCommand::TimeUpdate(_) => time::time_effect(
            command,
            old_world,
            new_world,
            old_config,
            new_config,
            now,
            res,
        ),
    }
}

/// Answers a request of a graphical client at time `now`.
pub fn execute_at(
    command: GuiCommand,
    world: &mut World,
    config: &mut ServerConfig,
    now: u64,
) -> (res: Vec<String>)
    requires
        consistent(*old(world), *old(config)),
    ensures
        final(world).same_roster(*old(world)),
        consistent(*final(world), *final(config)),
        gui_effect(command, *old(world), *final(world), *old(config), *final(config), now, texts(res@)),
{
    match command {
        GuiCommand::MapSize | GuiCommand::TileContent(_, _) | GuiCommand::MapContent
        | GuiCommand::TeamNames => map::execute(command, world, config),
        GuiCommand::PlayerPosition(_) | GuiCommand::PlayerLevel(_) | GuiCommand::PlayerInventory(_) => {
            player::execute_at(command, world, now)
        },
        GuiCommand::TimeRequest | GuiCommand::TimeUpdate(_) => time::execute_at(command, world, config, now),
    }
}

/// Dispatches a request of a graphical client to its handler; returns the
/// lines to send back.
pub fn execute(command: GuiCommand, world: &mut World, config: &mut ServerConfig) -> (res: Vec<
    String,
>)
    requires
        consistent(*old(world), *old(config)),
    ensures
        final(world).same_roster(*old(world)),
        consistent(*final(world), *final(config)),
        exists|now: u64|
            #[trigger] gui_effect(
                command,
                *old(world),
                *final(world),
                *old(config),
                *final(config),
                now,
                texts(res@),
            ),
{
    let now = now_nanos();
    execute_at(command, world, config, now)
}

} // verus!
