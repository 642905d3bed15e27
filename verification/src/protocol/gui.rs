//! Requests sent by graphical observers, and their parser.

use vstd::prelude::*;
use crate::text::{
    decimal, is_digit, is_ws, join_space, lemma_decimal_digits, lemma_split_join, unsigned_body,
    chars_eq_str, chars_of, parse_unsigned, parse_unsigned_chars, skip_hashes, split_words,
    split_ws, strip_hashes,
};

verus! {

/// A request sent by a graphical client (GUI).
#[derive(Debug, Clone, Copy, PartialEq, Eq, Structural)]
pub enum GuiCommand {
    /// Request the map size (`msz`).
    MapSize,
    /// Request the content of a specific tile (`bct X Y`).
    TileContent(u32, u32),
    /// Request the content of the entire map (`mct`).
    MapContent,
    /// Request the names of all teams (`tna`).
    TeamNames,
    /// Request the position and orientation of a specific player (`ppo #n`).
    PlayerPosition(usize),
    /// Request the level of a specific player (`plv #n`).
    PlayerLevel(usize),
    /// Request the inventory of a specific player (`pin #n`).
    PlayerInventory(usize),
    /// Request the current time unit frequency (`sgt`).
    TimeRequest,
    /// Request a modification of the time unit frequency (`sst T`).
    TimeUpdate(u32),
}

/// A `u32` argument as the standard parser reads it.
pub open spec fn u32_arg(w: Seq<char>) -> Option<u32> {
    match parse_unsigned(w, u32::MAX as nat) {
        Some(v) => Some(v as u32),
        None => None,
    }
}

/// A player id argument: leading `#` characters are skipped, the rest is
/// read as a `usize`.
pub open spec fn id_arg(w: Seq<char>) -> Option<usize> {
    match parse_unsigned(strip_hashes(w), usize::MAX as nat) {
        Some(v) => Some(v as usize),
        None => None,
    }
}

/// The request that a line of text denotes: its whitespace-separated words
/// are a keyword and the arguments that keyword takes.
pub open spec fn gui_command_of(s: Seq<char>) -> Option<GuiCommand> {
    let p = split_ws(s);
    if p.len() == 0 {
        None
    } else if p[0] == "msz"@ {
        Some(GuiCommand::MapSize)
    } else if p[0] == "bct"@ && p.len() == 3 {
        match (u32_arg(p[1]), u32_arg(p[2])) {
            (Some(x), Some(y)) => Some(GuiCommand::TileContent(x, y)),
            _ => None,
        }
    } else if p[0] == "mct"@ {
        Some(GuiCommand::MapContent)
    } else if p[0] == "tna"@ {
        Some(GuiCommand::TeamNames)
    } else if p[0] == "ppo"@ && p.len() == 2 {
        match id_arg(p[1]) {
            Some(id) => Some(GuiCommand::PlayerPosition(id)),
            None => None,
        }
    } else if p[0] == "plv"@ && p.len() == 2 {
        match id_arg(p[1]) {
            Some(id) => Some(GuiCommand::PlayerLevel(id)),
            None => None,
        }
    } else if p[0] == "pin"@ && p.len() == 2 {
        match id_arg(p[1]) {
            Some(id) => Some(GuiCommand::PlayerInventory(id)),
            None => None,
        }
    } else if p[0] == "sgt"@ {
        Some(GuiCommand::TimeRequest)
    } else if p[0] == "sst"@ && p.len() == 2 {
        match u32_arg(p[1]) {
            Some(t) => Some(GuiCommand::TimeUpdate(t)),
            None => None,
        }
    } else {
        None
    }
}

/// A number printed in decimal is read back as that number.
pub proof fn lemma_number_read_back(v: nat, max: nat)
    requires
        v <= max,
    ensures
        parse_unsigned(decimal(v), max) == Some(v),
        forall|i: int| 0 <= i < decimal(v).len() ==> !is_ws(#[trigger] decimal(v)[i]),
        decimal(v)[0] != '#',
{
    lemma_decimal_digits(v);
    assert(is_digit(decimal(v)[0]));
    assert(unsigned_body(decimal(v)) == decimal(v));
    assert forall|i: int| 0 <= i < decimal(v).len() implies !is_ws(#[trigger] decimal(v)[i]) by {
        assert(is_digit(decimal(v)[i]));
    }
}

/// Every request printed in its standard form (`bct X Y`, `ppo #N`,
/// `plv #N`, `pin #N`, `sst T`) is parsed back into that request.
pub proof fn lemma_gui_requests_read_back(x: u32, y: u32, n: usize, t: u32)
    ensures
        gui_command_of("bct "@ + decimal(x as nat) + " "@ + decimal(y as nat)) == Some(
            GuiCommand::TileContent(x, y),
        ),
        gui_command_of("ppo #"@ + decimal(n as nat)) == Some(GuiCommand::PlayerPosition(n)),
        gui_command_of("plv #"@ + decimal(n as nat)) == Some(GuiCommand::PlayerLevel(n)),
        gui_command_of("pin #"@ + decimal(n as nat)) == Some(GuiCommand::PlayerInventory(n)),
        gui_command_of("sst "@ + decimal(t as nat)) == Some(GuiCommand::TimeUpdate(t)),
{
    reveal_strlit("bct ");
    reveal_strlit("ppo #");
    reveal_strlit("plv #");
    reveal_strlit("pin #");
    reveal_strlit("sst ");
    reveal_strlit(" ");
    reveal_strlit("msz");
    reveal_strlit("bct");
    reveal_strlit("mct");
    reveal_strlit("tna");
    reveal_strlit("ppo");
    reveal_strlit("plv");
    reveal_strlit("pin");
    reveal_strlit("sgt");
    reveal_strlit("sst");
    reveal_with_fuel(join_space, 4);
    let dx = decimal(x as nat);
    let dy = decimal(y as nat);
    let dn = decimal(n as nat);
    let dt = decimal(t as nat);
    lemma_number_read_back(x as nat, u32::MAX as nat);
    lemma_number_read_back(y as nat, u32::MAX as nat);
    lemma_number_read_back(n as nat, usize::MAX as nat);
    lemma_number_read_back(t as nat, u32::MAX as nat);
    // bct
    let ws = seq!["bct"@, dx, dy];
    assert("bct "@ + dx + " "@ + dy =~= join_space(ws)) by {
        assert(join_space(seq!["bct"@, dx]) =~= "bct"@ + seq![' '] + dx) by {
            assert(seq!["bct"@, dx].drop_last() =~= seq!["bct"@]);
        }
        assert(ws.drop_last() =~= seq!["bct"@, dx]);
    }
    lemma_split_join(ws);
    assert("bct"@ != "msz"@) by {
        assert("bct"@[0] != "msz"@[0]);
    }
    // the requests with a player id
    lemma_hash_word(dn);
    lemma_id_request("ppo"@, dn);
    lemma_id_request("plv"@, dn);
    lemma_id_request("pin"@, dn);
    assert("ppo #"@ + dn =~= "ppo"@ + seq![' '] + (seq!['#'] + dn));
    assert("plv #"@ + dn =~= "plv"@ + seq![' '] + (seq!['#'] + dn));
    assert("pin #"@ + dn =~= "pin"@ + seq![' '] + (seq!['#'] + dn));
    assert("ppo"@ != "msz"@ && "ppo"@ != "bct"@ && "ppo"@ != "mct"@ && "ppo"@ != "tna"@) by {
        assert("ppo"@[0] != "msz"@[0] && "ppo"@[0] != "bct"@[0] && "ppo"@[0] != "mct"@[0]
            && "ppo"@[0] != "tna"@[0]);
    }
    assert("plv"@ != "msz"@ && "plv"@ != "bct"@ && "plv"@ != "mct"@ && "plv"@ != "tna"@
        && "plv"@ != "ppo"@) by {
        assert("plv"@[0] != "msz"@[0] && "plv"@[0] != "bct"@[0] && "plv"@[0] != "mct"@[0]
            && "plv"@[0] != "tna"@[0] && "plv"@[1] != "ppo"@[1]);
    }
    assert("pin"@ != "msz"@ && "pin"@ != "bct"@ && "pin"@ != "mct"@ && "pin"@ != "tna"@
        && "pin"@ != "ppo"@ && "pin"@ != "plv"@) by {
        assert("pin"@[0] != "msz"@[0] && "pin"@[0] != "bct"@[0] && "pin"@[0] != "mct"@[0]
            && "pin"@[0] != "tna"@[0] && "pin"@[1] != "ppo"@[1] && "pin"@[1] != "plv"@[1]);
    }
    // sst
    let ws2 = seq!["sst"@, dt];
    assert("sst "@ + dt =~= join_space(ws2)) by {
        assert(ws2.drop_last() =~= seq!["sst"@]);
    }
    lemma_split_join(ws2);
    assert("sst"@ != "msz"@ && "sst"@ != "bct"@ && "sst"@ != "mct"@ && "sst"@ != "tna"@
        && "sst"@ != "ppo"@ && "sst"@ != "plv"@ && "sst"@ != "pin"@ && "sst"@ != "sgt"@) by {
        assert("sst"@[0] != "msz"@[0] && "sst"@[0] != "bct"@[0] && "sst"@[0] != "mct"@[0]
            && "sst"@[0] != "tna"@[0] && "sst"@[0] != "ppo"@[0] && "sst"@[0] != "plv"@[0]
            && "sst"@[0] != "pin"@[0] && "sst"@[1] != "sgt"@[1]);
    }
}

/// `#` followed by a number is one word whose id is that number.
proof fn lemma_hash_word(d: Seq<char>)
    requires
        d.len() > 0,
        d[0] != '#',
        forall|i: int| 0 <= i < d.len() ==> !is_ws(#[trigger] d[i]),
    ensures
        strip_hashes(seq!['#'] + d) == d,
        forall|i: int| 0 <= i < (seq!['#'] + d).len() ==> !is_ws(#[trigger] (seq!['#'] + d)[i]),
{
    assert((seq!['#'] + d).drop_first() =~= d);
    assert((seq!['#'] + d)[0] == '#');
    assert(strip_hashes(d) == d);
    assert(strip_hashes(seq!['#'] + d) == strip_hashes((seq!['#'] + d).drop_first()));
    assert forall|i: int| 0 <= i < (seq!['#'] + d).len() implies !is_ws(#[trigger] (seq!['#'] + d)[i]) by {
        if i > 0 {
            assert((seq!['#'] + d)[i] == d[i - 1]);
        }
    }
}

/// A keyword, a space and `#` followed by a number split into those two
/// words.
proof fn lemma_id_request(kw: Seq<char>, d: Seq<char>)
    requires
        kw.len() > 0,
        forall|i: int| 0 <= i < kw.len() ==> !is_ws(#[trigger] kw[i]),
        d.len() > 0,
        forall|i: int| 0 <= i < (seq!['#'] + d).len() ==> !is_ws(#[trigger] (seq!['#'] + d)[i]),
    ensures
        split_ws(kw + seq![' '] + (seq!['#'] + d)) == seq![kw, seq!['#'] + d],
{
    let ws = seq![kw, seq!['#'] + d];
    reveal_with_fuel(join_space, 3);
    assert(ws.drop_last() =~= seq![kw]);
    assert(join_space(ws) == kw + seq![' '] + (seq!['#'] + d));
    lemma_split_join(ws);
}

fn parse_u32_word(w: &Vec<char>) -> (res: Option<u32>)
    ensures
        res == u32_arg(w@),
{
    match parse_unsigned_chars(w, u32::MAX as u64) {
        Some(v) => Some(v as u32),
        None => None,
    }
}

fn parse_id_word(w: &Vec<char>) -> (res: Option<usize>)
    ensures
        res == id_arg(w@),
{
    let body = skip_hashes(w);
    match parse_unsigned_chars(&body, usize::MAX as u64) {
        Some(v) => Some(v as usize),
        None => None,
    }
}

impl GuiCommand {
    /// Parses a line sent by a graphical client.
    pub fn from_str(s: &str) -> (res: Option<GuiCommand>)
        ensures
            res == gui_command_of(s@),
    {
        let cs = chars_of(s);
        let parts = split_words(&cs);
        let ghost p = parts@.map_values(|w: Vec<char>| w@);
        assert(p == split_ws(s@));
        if parts.len() == 0 {
            return None;
        }
        assert(p[0] == parts[0]@);
        let head = &parts[0];
        if chars_eq_str(head, "msz") {
            Some(GuiCommand::MapSize)
        } else if chars_eq_str(head, "bct") && parts.len() == 3 {
            assert(p[1] == parts[1]@ && p[2] == parts[2]@);
            let x = parse_u32_word(&parts[1]);
            let y = parse_u32_word(&parts[2]);
            match (x, y) {
                (Some(x), Some(y)) => Some(GuiCommand::TileContent(x, y)),
                _ => None,
            }
        } else if chars_eq_str(head, "mct") {
            Some(GuiCommand::MapContent)
        } else if chars_eq_str(head, "tna") {
            Some(GuiCommand::TeamNames)
        } else if chars_eq_str(head, "ppo") && parts.len() == 2 {
            assert(p[1] == parts[1]@);
            match parse_id_word(&parts[1]) {
                Some(id) => Some(GuiCommand::PlayerPosition(id)),
                None => None,
            }
        } else if chars_eq_str(head, "plv") && parts.len() == 2 {
            assert(p[1] == parts[1]@);
            match parse_id_word(&parts[1]) {
                Some(id) => Some(GuiCommand::PlayerLevel(id)),
                None => None,
            }
        } else if chars_eq_str(head, "pin") && parts.len() == 2 {
            assert(p[1] == parts[1]@);
            match parse_id_word(&parts[1]) {
                Some(id) => Some(GuiCommand::PlayerInventory(id)),
                None => None,
            }
        } else if chars_eq_str(head, "sgt") {
            Some(GuiCommand::TimeRequest)
        } else if chars_eq_str(head, "sst") && parts.len() == 2 {
            assert(p[1] == parts[1]@);
            match parse_u32_word(&parts[1]) {
                Some(t) => Some(GuiCommand::TimeUpdate(t)),
                None => None,
            }
        } else {
            None
        }
    }
}

} // verus!
