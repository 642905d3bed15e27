//! The text lines of both protocols, as specifications and as builders.
//!
//! Each `*_line` spec function states the exact characters of one message;
//! the executable builder of the same name without the suffix produces it.

use vstd::prelude::*;
use crate::game::world::ResourceCounts;
use crate::text::{decimal, push_decimal};

verus! {

/// The texts of a sequence of strings.
pub open spec fn texts(v: Seq<String>) -> Seq<Seq<char>> {
    v.map_values(|s: String| s@)
}

pub open spec fn dec(n: nat) -> Seq<char> {
    decimal(n)
}

/// `<kw> #<n>\n` (`ebo`, `edi`, `pdi`, `pex`, `pfk`).
pub open spec fn tagged_line(kw: Seq<char>, n: nat) -> Seq<char> {
    kw + " #"@ + dec(n) + "\n"@
}

/// `<kw> #<n> <v>\n` (`plv`, `pgt`, `pdr`).
pub open spec fn tagged_value_line(kw: Seq<char>, n: nat, v: nat) -> Seq<char> {
    kw + " #"@ + dec(n) + " "@ + dec(v) + "\n"@
}

/// `<kw> <v>\n` (`sgt`, `sst`, `eject`, `Current level:`).
pub open spec fn value_line(kw: Seq<char>, v: nat) -> Seq<char> {
    kw + " "@ + dec(v) + "\n"@
}

/// `<kw> <text>\n` (`tna`, `seg`).
pub open spec fn text_line(kw: Seq<char>, t: Seq<char>) -> Seq<char> {
    kw + " "@ + t + "\n"@
}

/// `<v>\n`.
pub open spec fn number_line(v: nat) -> Seq<char> {
    dec(v) + "\n"@
}

/// The seven counts, food first, separated by spaces.
pub open spec fn counts_text(c: ResourceCounts) -> Seq<char> {
    dec(c.food as nat) + " "@ + dec(c.linemate as nat) + " "@ + dec(c.deraumere as nat) + " "@
        + dec(c.sibur as nat) + " "@ + dec(c.mendiane as nat) + " "@ + dec(c.phiras as nat)
        + " "@ + dec(c.thystame as nat)
}

/// `msz X Y\n`.
pub open spec fn msz_line(w: nat, h: nat) -> Seq<char> {
    "msz "@ + dec(w) + " "@ + dec(h) + "\n"@
}

/// `ppo #n X Y O\n`.
pub open spec fn ppo_line(id: nat, x: nat, y: nat, o: nat) -> Seq<char> {
    "ppo #"@ + dec(id) + " "@ + dec(x) + " "@ + dec(y) + " "@ + dec(o) + "\n"@
}

/// `bct X Y f l d s m p t\n`.
pub open spec fn bct_line(x: nat, y: nat, c: ResourceCounts) -> Seq<char> {
    "bct "@ + dec(x) + " "@ + dec(y) + " "@ + counts_text(c) + "\n"@
}

/// `pin #n X Y f l d s m p t\n`, where `f` is the food count.
pub open spec fn pin_line(id: nat, x: nat, y: nat, c: ResourceCounts) -> Seq<char> {
    "pin #"@ + dec(id) + " "@ + dec(x) + " "@ + dec(y) + " "@ + counts_text(c) + "\n"@
}

/// `pnw #n X Y O L team\n`.
pub open spec fn pnw_line(id: nat, x: nat, y: nat, o: nat, l: nat, team: Seq<char>) -> Seq<
    char,
> {
    "pnw #"@ + dec(id) + " "@ + dec(x) + " "@ + dec(y) + " "@ + dec(o) + " "@ + dec(l) + " "@
        + team + "\n"@
}

/// `enw #e #n X Y\n`.
pub open spec fn enw_line(e: nat, n: nat, x: nat, y: nat) -> Seq<char> {
    "enw #"@ + dec(e) + " #"@ + dec(n) + " "@ + dec(x) + " "@ + dec(y) + "\n"@
}

/// `pie X Y R\n`.
pub open spec fn pie_line(x: nat, y: nat, r: nat) -> Seq<char> {
    "pie "@ + dec(x) + " "@ + dec(y) + " "@ + dec(r) + "\n"@
}

/// `pbc #n text\n`.
pub open spec fn pbc_line(id: nat, t: Seq<char>) -> Seq<char> {
    "pbc #"@ + dec(id) + " "@ + t + "\n"@
}

/// `message K, text\n`.
pub open spec fn message_line(k: nat, t: Seq<char>) -> Seq<char> {
    "message "@ + dec(k) + ", "@ + t + "\n"@
}

/// ` #a #b ...` for the ids `ids`.
pub open spec fn ids_text(ids: Seq<usize>) -> Seq<char>
    decreases ids.len(),
{
    if ids.len() == 0 {
        Seq::empty()
    } else {
        ids_text(ids.drop_last()) + " #"@ + dec(ids.last() as nat)
    }
}

/// `pic X Y L #a #b ...\n`.
pub open spec fn pic_line(x: nat, y: nat, l: nat, ids: Seq<usize>) -> Seq<char> {
    "pic "@ + dec(x) + " "@ + dec(y) + " "@ + dec(l) + ids_text(ids) + "\n"@
}

/// The handshake answer to a joining AI: free places, then map size.
pub open spec fn join_reply_line(n: nat, w: nat, h: nat) -> Seq<char> {
    dec(n) + "\n"@ + dec(w) + " "@ + dec(h) + "\n"@
}

fn append_counts(s: &mut String, c: &ResourceCounts)
    ensures
        final(s)@ == old(s)@ + counts_text(*c),
{
    push_decimal(s, c.food as u128);
    s.append(" ");
    push_decimal(s, c.linemate as u128);
    s.append(" ");
    push_decimal(s, c.deraumere as u128);
    s.append(" ");
    push_decimal(s, c.sibur as u128);
    s.append(" ");
    push_decimal(s, c.mendiane as u128);
    s.append(" ");
    push_decimal(s, c.phiras as u128);
    s.append(" ");
    push_decimal(s, c.thystame as u128);
    assert(s@ =~= old(s)@ + counts_text(*c));
}

pub fn tagged(kw: &str, n: u64) -> (res: String)
    ensures
        res@ == tagged_line(kw@, n as nat),
{
    let mut s = String::new();
    s.append(kw);
    s.append(" #");
    push_decimal(&mut s, n as u128);
    s.append("\n");
    assert(s@ =~= tagged_line(kw@, n as nat));
    s
}

pub fn tagged_value(kw: &str, n: u64, v: u64) -> (res: String)
    ensures
        res@ == tagged_value_line(kw@, n as nat, v as nat),
{
    let mut s = String::new();
    s.append(kw);
    s.append(" #");
    push_decimal(&mut s, n as u128);
    s.append(" ");
    push_decimal(&mut s, v as u128);
    s.append("\n");
    assert(s@ =~= tagged_value_line(kw@, n as nat, v as nat));
    s
}

pub fn value(kw: &str, v: u64) -> (res: String)
    ensures
        res@ == value_line(kw@, v as nat),
{
    let mut s = String::new();
    s.append(kw);
    s.append(" ");
    push_decimal(&mut s, v as u128);
    s.append("\n");
    assert(s@ =~= value_line(kw@, v as nat));
    s
}

pub fn text(kw: &str, t: &str) -> (res: String)
    ensures
        res@ == text_line(kw@, t@),
{
    let mut s = String::new();
    s.append(kw);
    s.append(" ");
    s.append(t);
    s.append("\n");
    assert(s@ =~= text_line(kw@, t@));
    s
}

pub fn number(v: u128) -> (res: String)
    ensures
        res@ == number_line(v as nat),
{
    let mut s = String::new();
    push_decimal(&mut s, v as u128);
    s.append("\n");
    assert(s@ =~= number_line(v as nat));
    s
}

pub fn msz(w: u32, h: u32) -> (res: String)
    ensures
        res@ == msz_line(w as nat, h as nat),
{
    let mut s = String::new();
    s.append("msz ");
    push_decimal(&mut s, w as u128);
    s.append(" ");
    push_decimal(&mut s, h as u128);
    s.append("\n");
    assert(s@ =~= msz_line(w as nat, h as nat));
    s
}

pub fn ppo(id: usize, x: u32, y: u32, o: u32) -> (res: String)
    ensures
        res@ == ppo_line(id as nat, x as nat, y as nat, o as nat),
{
    let mut s = String::new();
    s.append("ppo #");
    push_decimal(&mut s, id as u128);
    s.append(" ");
    push_decimal(&mut s, x as u128);
    s.append(" ");
    push_decimal(&mut s, y as u128);
    s.append(" ");
    push_decimal(&mut s, o as u128);
    s.append("\n");
    assert(s@ =~= ppo_line(id as nat, x as nat, y as nat, o as nat));
    s
}

pub fn bct(x: u32, y: u32, c: &ResourceCounts) -> (res: String)
    ensures
        res@ == bct_line(x as nat, y as nat, *c),
{
    let mut s = String::new();
    s.append("bct ");
    push_decimal(&mut s, x as u128);
    s.append(" ");
    push_decimal(&mut s, y as u128);
    s.append(" ");
    append_counts(&mut s, c);
    s.append("\n");
    assert(s@ =~= bct_line(x as nat, y as nat, *c));
    s
}

pub fn pin(id: usize, x: u32, y: u32, c: &ResourceCounts) -> (res: String)
    ensures
        res@ == pin_line(id as nat, x as nat, y as nat, *c),
{
    let mut s = String::new();
    s.append("pin #");
    push_decimal(&mut s, id as u128);
    s.append(" ");
    push_decimal(&mut s, x as u128);
    s.append(" ");
    push_decimal(&mut s, y as u128);
    s.append(" ");
    append_counts(&mut s, c);
    s.append("\n");
    assert(s@ =~= pin_line(id as nat, x as nat, y as nat, *c));
    s
}

pub fn pnw(id: usize, x: u32, y: u32, o: u32, l: u32, team: &str) -> (res: String)
    ensures
        res@ == pnw_line(id as nat, x as nat, y as nat, o as nat, l as nat, team@),
{
    let mut s = String::new();
    s.append("pnw #");
    push_decimal(&mut s, id as u128);
    s.append(" ");
    push_decimal(&mut s, x as u128);
    s.append(" ");
    push_decimal(&mut s, y as u128);
    s.append(" ");
    push_decimal(&mut s, o as u128);
    s.append(" ");
    push_decimal(&mut s, l as u128);
    s.append(" ");
    s.append(team);
    s.append("\n");
    assert(s@ =~= pnw_line(id as nat, x as nat, y as nat, o as nat, l as nat, team@));
    s
}

pub fn enw(e: usize, n: usize, x: u32, y: u32) -> (res: String)
    ensures
        res@ == enw_line(e as nat, n as nat, x as nat, y as nat),
{
    let mut s = String::new();
    s.append("enw #");
    push_decimal(&mut s, e as u128);
    s.append(" #");
    push_decimal(&mut s, n as u128);
    s.append(" ");
    push_decimal(&mut s, x as u128);
    s.append(" ");
    push_decimal(&mut s, y as u128);
    s.append("\n");
    assert(s@ =~= enw_line(e as nat, n as nat, x as nat, y as nat));
    s
}

pub fn pie(x: u32, y: u32, r: u32) -> (res: String)
    ensures
        res@ == pie_line(x as nat, y as nat, r as nat),
{
    let mut s = String::new();
    s.append("pie ");
    push_decimal(&mut s, x as u128);
    s.append(" ");
    push_decimal(&mut s, y as u128);
    s.append(" ");
    push_decimal(&mut s, r as u128);
    s.append("\n");
    assert(s@ =~= pie_line(x as nat, y as nat, r as nat));
    s
}

pub fn pbc(id: usize, t: &str) -> (res: String)
    ensures
        res@ == pbc_line(id as nat, t@),
{
    let mut s = String::new();
    s.append("pbc #");
    push_decimal(&mut s, id as u128);
    s.append(" ");
    s.append(t);
    s.append("\n");
    assert(s@ =~= pbc_line(id as nat, t@));
    s
}

pub fn message(k: u32, t: &str) -> (res: String)
    ensures
        res@ == message_line(k as nat, t@),
{
    let mut s = String::new();
    s.append("message ");
    push_decimal(&mut s, k as u128);
    s.append(", ");
    s.append(t);
    s.append("\n");
    assert(s@ =~= message_line(k as nat, t@));
    s
}

pub fn pic(x: u32, y: u32, l: u32, ids: &Vec<usize>) -> (res: String)
    ensures
        res@ == pic_line(x as nat, y as nat, l as nat, ids@),
{
    let mut s = String::new();
    s.append("pic ");
    push_decimal(&mut s, x as u128);
    s.append(" ");
    push_decimal(&mut s, y as u128);
    s.append(" ");
    push_decimal(&mut s, l as u128);
    let ghost head = s@;
    let mut i: usize = 0;
    while i < ids.len()
        invariant
            i <= ids.len(),
            s@ == head + ids_text(ids@.take(i as int)),
        decreases ids.len() - i,
    {
        s.append(" #");
        push_decimal(&mut s, ids[i] as u128);
        assert(ids@.take(i + 1).drop_last() =~= ids@.take(i as int));
        i = i + 1;
        assert(s@ =~= head + ids_text(ids@.take(i as int)));
    }
    assert(ids@.take(ids.len() as int) =~= ids@);
    s.append("\n");
    assert(s@ =~= pic_line(x as nat, y as nat, l as nat, ids@));
    s
}

pub fn join_reply(n: u128, w: u32, h: u32) -> (res: String)
    ensures
        res@ == join_reply_line(n as nat, w as nat, h as nat),
{
    let mut s = String::new();
    push_decimal(&mut s, n as u128);
    s.append("\n");
    push_decimal(&mut s, w as u128);
    s.append(" ");
    push_decimal(&mut s, h as u128);
    s.append("\n");
    assert(s@ =~= join_reply_line(n as nat, w as nat, h as nat));
    s
}

/// A string holding a fixed text.
pub fn fixed(t: &str) -> (res: String)
    ensures
        res@ == t@,
{
    let mut s = String::new();
    s.append(t);
    assert(s@ =~= t@);
    s
}

} // verus!
