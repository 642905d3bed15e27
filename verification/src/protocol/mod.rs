//! Commands sent by AI clients: their durations and their parser.

pub mod gui;

use vstd::prelude::*;
use crate::text::{
    chars_eq_str, chars_of, join_space, push_char, push_chars, split_words, split_ws, string_of,
};

verus! {

/// A command sent by an AI client.
#[derive(Debug, Clone)]
pub enum Command {
    Forward,
    Right,
    Left,
    Look,
    Inventory,
    Broadcast(String),
    ConnectNbr,
    Fork,
    Eject,
    Take(String),
    /// `Set <object>`: drop an object on the tile.
    SetObject(String),
    Incantation,
}

/// The mathematical content of a [`Command`]: its text arguments as
/// character sequences.
pub enum CommandModel {
    Forward,
    Right,
    Left,
    Look,
    Inventory,
    Broadcast(Seq<char>),
    ConnectNbr,
    Fork,
    Eject,
    Take(Seq<char>),
    SetObject(Seq<char>),
    Incantation,
}

impl View for Command {
    type V = CommandModel;

    open spec fn view(&self) -> CommandModel {
        match self {
            Command::Forward => CommandModel::Forward,
            Command::Right => CommandModel::Right,
            Command::Left => CommandModel::Left,
            Command::Look => CommandModel::Look,
            Command::Inventory => CommandModel::Inventory,
            Command::Broadcast(t) => CommandModel::Broadcast(t@),
            Command::ConnectNbr => CommandModel::ConnectNbr,
            Command::Fork => CommandModel::Fork,
            Command::Eject => CommandModel::Eject,
            Command::Take(o) => CommandModel::Take(o@),
            Command::SetObject(o) => CommandModel::SetObject(o@),
            Command::Incantation => CommandModel::Incantation,
        }
    }
}

/// How many time units a command takes to complete.
pub open spec fn command_duration(c: CommandModel) -> u32 {
    match c {
        CommandModel::Inventory => 1,
        CommandModel::Fork => 42,
        CommandModel::Incantation => 300,
        CommandModel::ConnectNbr => 0,
        _ => 7,
    }
}

/// The command that a line of text denotes: its first whitespace-separated
/// word is the keyword; `Take` and `Set` take the second word as their
/// object, and `Broadcast` takes every following word, joined by single
/// spaces.
pub open spec fn command_of(s: Seq<char>) -> Option<CommandModel> {
    let p = split_ws(s);
    if p.len() == 0 {
        None
    } else if p[0] == "Forward"@ {
        Some(CommandModel::Forward)
    } else if p[0] == "Right"@ {
        Some(CommandModel::Right)
    } else if p[0] == "Left"@ {
        Some(CommandModel::Left)
    } else if p[0] == "Look"@ {
        Some(CommandModel::Look)
    } else if p[0] == "Inventory"@ {
        Some(CommandModel::Inventory)
    } else if p[0] == "Connect_nbr"@ {
        Some(CommandModel::ConnectNbr)
    } else if p[0] == "Fork"@ {
        Some(CommandModel::Fork)
    } else if p[0] == "Eject"@ {
        Some(CommandModel::Eject)
    } else if p[0] == "Take"@ && p.len() > 1 {
        Some(CommandModel::Take(p[1]))
    } else if p[0] == "Set"@ && p.len() > 1 {
        Some(CommandModel::SetObject(p[1]))
    } else if p[0] == "Incantation"@ {
        Some(CommandModel::Incantation)
    } else if p[0] == "Broadcast"@ && p.len() > 1 {
        Some(CommandModel::Broadcast(join_space(p.drop_first())))
    } else {
        None
    }
}

/// Joins the words `ws[from..]` with single spaces.
fn join_words_from(ws: &Vec<Vec<char>>, from: usize) -> (res: String)
    requires
        from < ws.len(),
    ensures
        res@ == join_space(ws@.map_values(|w: Vec<char>| w@).subrange(from as int, ws.len() as int)),
{
    let ghost all = ws@.map_values(|w: Vec<char>| w@);
    let mut s = string_of(&ws[from]);
    let mut i = from + 1;
    assert(all.subrange(from as int, from + 1) =~= seq![all[from as int]]);
    while i < ws.len()
        invariant
            from < i <= ws.len(),
            all == ws@.map_values(|w: Vec<char>| w@),
            s@ == join_space(all.subrange(from as int, i as int)),
        decreases ws.len() - i,
    {
        push_char(&mut s, ' ');
        push_chars(&mut s, &ws[i], 0, ws[i].len());
        assert(ws[i as int]@.subrange(0, ws[i as int]@.len() as int) =~= ws[i as int]@);
        let ghost next = all.subrange(from as int, i + 1);
        assert(next.drop_last() =~= all.subrange(from as int, i as int));
        assert(next.last() == all[i as int]);
        i = i + 1;
    }
    s
}

impl Command {
    /// How many time units the command takes to complete.
    pub fn duration(&self) -> (res: u32)
        ensures
            res == command_duration(self@),
    {
        match self {
            Command::Forward | Command::Right | Command::Left | Command::Look |
            Command::Broadcast(_) | Command::Eject | Command::Take(_) | Command::SetObject(_) => 7,
            Command::Inventory => 1,
            Command::Fork => 42,
            Command::Incantation => 300,
            Command::ConnectNbr => 0,
        }
    }

    /// Parses a line sent by an AI client.
    pub fn from_str(s: &str) -> (res: Option<Command>)
        ensures
            match command_of(s@) {
                Some(m) => res is Some && res->0@ == m,
                None => res is None,
            },
    {
        let cs = chars_of(s);
        let parts = split_words(&cs);
        let ghost p = parts@.map_values(|w: Vec<char>| w@);
        assert(p == split_ws(s@));
        if parts.len() == 0 {
            return None;
        }
        assert(p[0] == parts[0]@);
        let head = &parts[0];
        if chars_eq_str(head, "Forward") {
            Some(Command::Forward)
        } else if chars_eq_str(head, "Right") {
            Some(Command::Right)
        } else if chars_eq_str(head, "Left") {
            Some(Command::Left)
        } else if chars_eq_str(head, "Look") {
            Some(Command::Look)
        } else if chars_eq_str(head, "Inventory") {
            Some(Command::Inventory)
        } else if chars_eq_str(head, "Connect_nbr") {
            Some(Command::ConnectNbr)
        } else if chars_eq_str(head, "Fork") {
            Some(Command::Fork)
        } else if chars_eq_str(head, "Eject") {
            Some(Command::Eject)
        } else if chars_eq_str(head, "Take") && parts.len() > 1 {
            assert(p[1] == parts[1]@);
            Some(Command::Take(string_of(&parts[1])))
        } else if chars_eq_str(head, "Set") && parts.len() > 1 {
            assert(p[1] == parts[1]@);
            Some(Command::SetObject(string_of(&parts[1])))
        } else if chars_eq_str(head, "Incantation") {
            Some(Command::Incantation)
        } else if chars_eq_str(head, "Broadcast") && parts.len() > 1 {
            let text = join_words_from(&parts, 1);
            assert(p.subrange(1, p.len() as int) =~= p.drop_first());
            Some(Command::Broadcast(text))
        } else {
            None
        }
    }
}

/// A command waiting in a player's queue, with the instant (in nanoseconds
/// of the server clock) at which it completes.
pub struct PendingCommand {
    pub command: Command,
    pub end_time: u64,
}

} // verus!
