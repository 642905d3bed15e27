//! Map-related GUI requests: `msz`, `bct`, `mct`, `tna`.

use vstd::prelude::*;
use crate::config::ServerConfig;
use crate::game::world::{World, lemma_tile_index};
use crate::lines::{self, bct_line, msz_line, text_line};
use crate::protocol::gui::GuiCommand;

verus! {

/// The `bct` lines of the rows `0..rows` of a `w`-wide map, row by row,
/// each row from left to right.
pub open spec fn map_lines(world: World, w: u32, rows: nat) -> Seq<Seq<char>>
    decreases rows,
{
    if rows == 0 {
        Seq::empty()
    } else {
        map_lines(world, w, (rows - 1) as nat) + Seq::new(
            w as nat,
            |x: int| bct_line(x as nat, (rows - 1) as nat, world.tile_at(x as nat, (rows - 1) as nat).resources),
        )
    }
}

/// The requests of this module fit the world they are answered from.
pub open spec fn config_fits(world: World, config: ServerConfig) -> bool {
    &&& world.wf()
    &&& config.width <= world.width
    &&& config.height <= world.height
}

/// The answer to a map request.
pub open spec fn map_answer(command: GuiCommand, world: World, config: ServerConfig) -> Seq<Seq<char>> {
    match command {
        GuiCommand::MapSize => seq![msz_line(config.width as nat, config.height as nat)],
        GuiCommand::TileContent(x, y) => if x < config.width && y < config.height {
            seq![bct_line(x as nat, y as nat, world.tile_at(x as nat, y as nat).resources)]
        } else {
            seq!["sbp\n"@]
        },
        GuiCommand::MapContent => map_lines(world, config.width, config.height as nat),
        GuiCommand::TeamNames => config.teams@.map_values(|t: String| text_line("tna"@, t@)),
        _ => Seq::empty(),
    }
}

/// Answers the map requests (`msz`, `bct`, `mct`, `tna`); other requests get
/// no answer here.
pub fn execute(command: GuiCommand, world: &World, config: &ServerConfig) -> (res: Vec<String>)
    requires
        config_fits(*world, *config),
    ensures
        res@.map_values(|s: String| s@) == map_answer(command, *world, *config),
{
    let mut responses: Vec<String> = Vec::new();
    match command {
        GuiCommand::MapSize => {
            responses.push(lines::msz(config.width, config.height));
        },
        GuiCommand::TileContent(x, y) => {
            if x < config.width && y < config.height {
                responses.push(format_bct(world, x, y));
            } else {
                responses.push(lines::fixed("sbp\n"));
            }
        },
        GuiCommand::MapContent => {
            let mut y: u32 = 0;
            while y < config.height
                invariant
                    config_fits(*world, *config),
                    y <= config.height,
                    responses@.map_values(|s: String| s@) == map_lines(*world, config.width, y as nat),
                decreases config.height - y,
            {
                let ghost base = responses@.map_values(|s: String| s@);
                let mut x: u32 = 0;
                while x < config.width
                    invariant
                        config_fits(*world, *config),
                        y < config.height,
                        x <= config.width,
                        responses@.map_values(|s: String| s@) == base + Seq::new(
                            x as nat,
                            |i: int| bct_line(i as nat, y as nat, world.tile_at(i as nat, y as nat).resources),
                        ),
                    decreases config.width - x,
                {
                    let line = format_bct(world, x, y);
                    let ghost prev = responses@.map_values(|s: String| s@);
                    responses.push(line);
                    assert(responses@.map_values(|s: String| s@) =~= prev.push(line@));
                    assert(Seq::new(
                        (x + 1) as nat,
                        |i: int| bct_line(i as nat, y as nat, world.tile_at(i as nat, y as nat).resources),
                    ) =~= Seq::new(
                        x as nat,
                        |i: int| bct_line(i as nat, y as nat, world.tile_at(i as nat, y as nat).resources),
                    ).push(line@));
                    x = x + 1;
                    assert(responses@.map_values(|s: String| s@) =~= base + Seq::new(
                        x as nat,
                        |i: int| bct_line(i as nat, y as nat, world.tile_at(i as nat, y as nat).resources),
                    ));
                }
                assert(map_lines(*world, config.width, (y + 1) as nat) == map_lines(*world, config.width, y as nat) + Seq::new(
                    config.width as nat,
                    |i: int| bct_line(i as nat, y as nat, world.tile_at(i as nat, y as nat).resources),
                ));
                y = y + 1;
            }
        },
        GuiCommand::TeamNames => {
            let mut i: usize = 0;
            while i < config.teams.len()
                invariant
                    i <= config.teams@.len(),
                    responses@.map_values(|s: String| s@) == config.teams@.take(i as int).map_values(
                        |t: String| text_line("tna"@, t@),
                    ),
                decreases config.teams.len() - i,
            {
                let line = lines::text("tna", config.teams[i].as_str());
                let ghost prev = responses@.map_values(|s: String| s@);
                responses.push(line);
                assert(responses@.map_values(|s: String| s@) =~= prev.push(line@));
                assert(config.teams@.take(i + 1) =~= config.teams@.take(i as int).push(config.teams@[i as int]));
                i = i + 1;
                assert(responses@.map_values(|s: String| s@) =~= config.teams@.take(i as int).map_values(
                    |t: String| text_line("tna"@, t@),
                ));
            }
            assert(config.teams@.take(config.teams@.len() as int) =~= config.teams@);
        },
        _ => {},
    }
    assert(responses@.map_values(|s: String| s@) =~= map_answer(command, *world, *config));
    responses
}

/// Formats the content of a tile into a `bct` line.
pub fn format_bct(world: &World, x: u32, y: u32) -> (res: String)
    requires
        world.wf(),
        x < world.width,
        y < world.height,
    ensures
        res@ == bct_line(x as nat, y as nat, world.tile_at(x as nat, y as nat).resources),
{
    proof {
        lemma_tile_index(world.width as nat, world.height as nat, x as nat, y as nat);
    }
    let tile = world.get_tile(x, y);
    lines::bct(x, y, &tile.resources)
}

} // verus!
