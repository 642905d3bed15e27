//! The decisions of the server: what it does when a client connects, leaves
//! or sends a line, and on each turn of its event loop. Each handler returns
//! the actions the network loop must perform, in order.

use vstd::prelude::*;
use crate::clock::{now_nanos, random_below};
use crate::config::ServerConfig;
use crate::game::commands::interaction::{shown, shown_counts};
use crate::game::commands::{self as game_commands, execute_effect, init_effect, notes};
use crate::game::player::{
    Direction, Player, food_left, orientation_number, sat_add, sat_sub, time_units_to_nanos,
    units_to_nanos,
};
use crate::game::world::{
    Egg, RESPAWN_TIME, World, eggs_of, has_player, has_team, player_index, slots_of, victor,
};
use crate::gui::commands::{consistent, gui_effect};
use crate::gui::commands::map::map_answer;
use crate::lines::{
    self, dec, enw_line, join_reply_line, pin_line, pnw_line, tagged_line, text_line, texts,
    value_line,
};
use crate::protocol::gui::{GuiCommand, gui_command_of};
use crate::protocol::{Command, CommandModel, PendingCommand, command_duration, command_of};

verus! {

/// Represents the various states a client can be in.
#[derive(Debug, Clone, Copy, PartialEq, Eq, Structural)]
pub enum ClientState {
    /// Initial state, waiting for the client to send a team name.
    Authenticating,
    /// Client is an AI (drone) currently in the game, controlling this player.
    InGame(usize),
    /// Client is a graphical interface.
    Graphic,
}

/// A report for the dashboard.
#[derive(Debug)]
pub enum ServerEvent {
    /// A log line to append to the live event stream.
    Log(String),
    /// A new client (AI or GUI) connected.
    ClientConnected,
    /// A client disconnected.
    ClientDisconnected,
    /// A player joined the named team.
    PlayerJoinedTeam(String),
    /// A player of the named team left or starved to death.
    PlayerDied(String),
    /// The server's time-unit frequency changed to the given value.
    FreqChanged(u32),
    /// The game ended; carries the winning team's name.
    GameOver(String),
    /// Current `(x, y)` positions of all players, for the live minimap.
    MapSnapshot(Vec<(u32, u32)>),
}

/// The content of a [`ServerEvent`], its texts as character sequences.
pub enum EventModel {
    Log(Seq<char>),
    ClientConnected,
    ClientDisconnected,
    PlayerJoinedTeam(Seq<char>),
    PlayerDied(Seq<char>),
    FreqChanged(u32),
    GameOver(Seq<char>),
    MapSnapshot(Seq<(u32, u32)>),
}

impl View for ServerEvent {
    type V = EventModel;

    open spec fn view(&self) -> EventModel {
        match self {
            ServerEvent::Log(m) => EventModel::Log(m@),
            ServerEvent::ClientConnected => EventModel::ClientConnected,
            ServerEvent::ClientDisconnected => EventModel::ClientDisconnected,
            ServerEvent::PlayerJoinedTeam(t) => EventModel::PlayerJoinedTeam(t@),
            ServerEvent::PlayerDied(t) => EventModel::PlayerDied(t@),
            ServerEvent::FreqChanged(f) => EventModel::FreqChanged(*f),
            ServerEvent::GameOver(t) => EventModel::GameOver(t@),
            ServerEvent::MapSnapshot(ps) => EventModel::MapSnapshot(ps@),
        }
    }
}

/// Something the network loop must do for the server.
#[derive(Debug)]
pub enum Action {
    /// Queue a text for a client.
    Send(usize, String),
    /// Close the connection of a client.
    Disconnect(usize),
    /// Report to the dashboard (a log line is printed when there is none).
    Event(ServerEvent),
}

/// The content of an [`Action`].
pub enum ActionModel {
    Send(usize, Seq<char>),
    Disconnect(usize),
    Event(EventModel),
}

impl View for Action {
    type V = ActionModel;

    open spec fn view(&self) -> ActionModel {
        match self {
            Action::Send(c, t) => ActionModel::Send(*c, t@),
            Action::Disconnect(c) => ActionModel::Disconnect(*c),
            Action::Event(e) => ActionModel::Event(e@),
        }
    }
}

/// The contents of a list of actions.
pub open spec fn actions(v: Seq<Action>) -> Seq<ActionModel> {
    v.map_values(|a: Action| a@)
}

/// A text for a client.
pub open spec fn send(c: usize, t: Seq<char>) -> ActionModel {
    ActionModel::Send(c, t)
}

/// A log line.
pub open spec fn log(t: Seq<char>) -> ActionModel {
    ActionModel::Event(EventModel::Log(t))
}

/// A report for the dashboard.
pub open spec fn event(e: EventModel) -> ActionModel {
    ActionModel::Event(e)
}

// ---------------------------------------------------------------------------
// Clients as a sequence of (id, state)
// ---------------------------------------------------------------------------

pub open spec fn clients_distinct(cs: Seq<(usize, ClientState)>) -> bool {
    forall|i: int, j: int|
        0 <= i < cs.len() && 0 <= j < cs.len() && i != j ==> #[trigger] cs[i].0 != #[trigger] cs[j].0
}

pub open spec fn has_client(cs: Seq<(usize, ClientState)>, id: usize) -> bool {
    exists|i: int| 0 <= i < cs.len() && #[trigger] cs[i].0 == id
}

/// Where client `id` stands in `cs`.
pub open spec fn client_index(cs: Seq<(usize, ClientState)>, id: usize) -> int {
    choose|i: int| 0 <= i < cs.len() && #[trigger] cs[i].0 == id
}

/// The state of client `id`, if it is known.
pub open spec fn state_of(cs: Seq<(usize, ClientState)>, id: usize) -> Option<ClientState> {
    if has_client(cs, id) {
        Some(cs[client_index(cs, id)].1)
    } else {
        None
    }
}

/// `cs` with client `id` in state `st` (added at the end if it was unknown).
pub open spec fn with_state(cs: Seq<(usize, ClientState)>, id: usize, st: ClientState) -> Seq<
    (usize, ClientState),
> {
    if has_client(cs, id) {
        cs.update(client_index(cs, id), (id, st))
    } else {
        cs.push((id, st))
    }
}

/// `cs` without client `id`.
pub open spec fn without_client(cs: Seq<(usize, ClientState)>, id: usize) -> Seq<
    (usize, ClientState),
> {
    if has_client(cs, id) {
        cs.remove(client_index(cs, id))
    } else {
        cs
    }
}

pub proof fn lemma_client_index(cs: Seq<(usize, ClientState)>, i: int)
    requires
        clients_distinct(cs),
        0 <= i < cs.len(),
    ensures
        has_client(cs, cs[i].0),
        client_index(cs, cs[i].0) == i,
{
    let id = cs[i].0;
    assert(cs[i].0 == id);
    let k = client_index(cs, id);
    if k != i {
        assert(cs[k].0 != cs[i].0);
    }
}

/// The player a client controls, if it is in game.
pub open spec fn player_of(st: ClientState) -> Option<usize> {
    match st {
        ClientState::InGame(pid) => Some(pid),
        _ => None,
    }
}

/// The texts `msg` sent to every graphical client of `cs`, in order.
pub open spec fn broadcast(cs: Seq<(usize, ClientState)>, msg: Seq<char>) -> Seq<ActionModel>
    decreases cs.len(),
{
    if cs.len() == 0 {
        Seq::empty()
    } else {
        broadcast(cs.drop_last(), msg) + if cs.last().1 == ClientState::Graphic {
            seq![send(cs.last().0, msg)]
        } else {
            Seq::<ActionModel>::empty()
        }
    }
}

/// The team of player `pid`, or the empty text if there is no such player.
pub open spec fn team_of(world: World, pid: usize) -> Seq<char> {
    if has_player(world.players@, pid) {
        world.player_with(pid).team@
    } else {
        Seq::empty()
    }
}

/// `prefix` followed by the decimal digits of `n`.
fn numbered(prefix: &str, n: u128) -> (res: String)
    ensures
        res@ == prefix@ + dec(n as nat),
{
    let mut s = prefix.to_owned();
    crate::text::push_decimal(&mut s, n);
    s
}

/// A removed player leaves the others in the world.
pub proof fn lemma_other_player_stays(old: World, new: World, pid: usize, q: usize)
    requires
        old.wf(),
        World::player_removed(new, old, pid),
        has_player(old.players@, q),
        q != pid,
    ensures
        has_player(new.players@, q),
{
    let j = choose|j: int| 0 <= j < old.players@.len() && #[trigger] old.players@[j].id == q;
    if has_player(old.players@, pid) {
        let i = player_index(old.players@, pid);
        assert(old.players@[i].id == pid);
        let j2 = if j < i { j } else { j - 1 };
        assert(new.players@[j2] == old.players@[j]);
    } else {
        assert(new.players@[j].id == q);
    }
}

/// Removing a client keeps the others, in order.
pub proof fn lemma_remove_client(cs: Seq<(usize, ClientState)>, k: int)
    requires
        clients_distinct(cs),
        0 <= k < cs.len(),
    ensures
        clients_distinct(cs.remove(k)),
        forall|j: int| 0 <= j < cs.len() - 1 ==> #[trigger] cs.remove(k)[j] == cs[if j < k { j } else { j + 1 }],
{
    let r = cs.remove(k);
    assert forall|j: int| 0 <= j < cs.len() - 1 implies #[trigger] r[j] == cs[if j < k { j } else { j + 1 }] by {}
    assert forall|a: int, b: int| 0 <= a < r.len() && 0 <= b < r.len() && a != b implies #[trigger] r[a].0 != #[trigger] r[b].0 by {
        let a0 = if a < k { a } else { a + 1 };
        let b0 = if b < k { b } else { b + 1 };
        assert(r[a] == cs[a0]);
        assert(r[b] == cs[b0]);
    }
}

/// The same text sent to client `c` for each of `ts`.
pub open spec fn sends(c: usize, ts: Seq<Seq<char>>) -> Seq<ActionModel> {
    ts.map_values(|t: Seq<char>| send(c, t))
}

/// The `pnw` and `pin` lines that introduce players `ps` to a graphical
/// client at `now`.
pub open spec fn player_lines(ps: Seq<Player>, freq: nat, now: nat) -> Seq<Seq<char>>
    decreases ps.len(),
{
    if ps.len() == 0 {
        Seq::empty()
    } else {
        let p = ps.last();
        player_lines(ps.drop_last(), freq, now) + seq![
            pnw_line(
                p.id as nat,
                p.x as nat,
                p.y as nat,
                orientation_number(p.direction) as nat,
                p.level as nat,
                p.team@,
            ),
            pin_line(p.id as nat, p.x as nat, p.y as nat, shown_counts(p, now, freq)),
        ]
    }
}

/// The `enw` lines of eggs `es`.
pub open spec fn egg_lines(es: Seq<Egg>) -> Seq<Seq<char>> {
    es.map_values(|e: Egg| enw_line(e.id as nat, 0, e.x as nat, e.y as nat))
}

/// What a new graphical client receives at `now`: a greeting, the map size,
/// the frequency, every tile, the team names, every player and every egg.
pub open spec fn welcome_lines(world: World, config: ServerConfig, now: nat) -> Seq<Seq<char>> {
    seq!["smg Welcome to Zappy Server!\n"@] + map_answer(GuiCommand::MapSize, world, config) + seq![
        value_line("sgt"@, config.freq as nat),
    ] + map_answer(GuiCommand::MapContent, world, config) + map_answer(
        GuiCommand::TeamNames,
        world,
        config,
    ) + player_lines(world.players@, world.freq as nat, now) + egg_lines(world.eggs@)
}

/// Queues each of `ts` for client `c`.
fn send_all(c: usize, ts: &Vec<String>, out: &mut Vec<Action>)
    ensures
        actions(final(out)@) == actions(old(out)@) + sends(c, texts(ts@)),
{
    let ghost start = actions(out@);
    let ghost all = texts(ts@);
    let mut i: usize = 0;
    while i < ts.len()
        invariant
            all == texts(ts@),
            i <= ts@.len(),
            actions(out@) == start + sends(c, all.take(i as int)),
        decreases ts.len() - i,
    {
        let t = ts[i].clone();
        assert(t@ == all[i as int]);
        let ghost prev = actions(out@);
        out.push(Action::Send(c, t));
        assert(actions(out@) =~= prev.push(send(c, all[i as int])));
        assert(sends(c, all.take(i + 1)) =~= sends(c, all.take(i as int)).push(send(c, all[i as int])));
        i = i + 1;
    }
    assert(all.take(ts@.len() as int) =~= all);
}

/// Changing the state of client number `k` to `st`, and the world in a way
/// that keeps every player and the map, keeps a server well formed when `st`
/// controls no player, or a player of the new world that no other client
/// controls.
pub proof fn lemma_wf_update(old: Server, new: Server, k: int, st: ClientState)
    requires
        old.wf(),
        consistent(new.world, new.config),
        new.world.width == old.world.width,
        new.world.height == old.world.height,
        0 <= k < old.client_states@.len(),
        new.client_states@ == old.client_states@.update(k, (old.client_states@[k].0, st)),
        forall|q: usize| #[trigger]
            has_player(old.world.players@, q) ==> has_player(new.world.players@, q),
        queues_ordered(new.world.players@),
        match player_of(st) {
            Some(pid) => {
                &&& has_player(new.world.players@, pid)
                &&& forall|i: int|
                    0 <= i < old.client_states@.len() && i != k ==> #[trigger] player_of(
                        old.client_states@[i].1,
                    ) != Some(pid)
            },
            None => true,
        },
    ensures
        new.wf(),
{
    let cs = old.client_states@;
    let ns = new.client_states@;
    assert forall|a: int, b: int| 0 <= a < ns.len() && 0 <= b < ns.len() && a != b implies #[trigger] ns[a].0
        != #[trigger] ns[b].0 by {
        assert(ns[a].0 == cs[a].0);
        assert(ns[b].0 == cs[b].0);
    }
    assert forall|i: int| 0 <= i < ns.len() implies match #[trigger] player_of(ns[i].1) {
        Some(pid) => has_player(new.world.players@, pid),
        None => true,
    } by {
        if i != k {
            assert(ns[i] == cs[i]);
            assert(player_of(cs[i].1) == player_of(cs[i].1));
            if let Some(q) = player_of(cs[i].1) {
                assert(has_player(old.world.players@, q));
            }
        }
    }
    assert forall|i: int, j: int|
        0 <= i < ns.len() && 0 <= j < ns.len() && i != j && #[trigger] player_of(ns[i].1) is Some implies #[trigger] player_of(
        ns[j].1) != player_of(ns[i].1) by {
        if i == k {
            assert(player_of(cs[j].1) != player_of(st));
        } else if j == k {
            assert(player_of(cs[i].1) != player_of(st));
        } else {
            assert(ns[i] == cs[i]);
            assert(ns[j] == cs[j]);
            assert(player_of(cs[i].1) is Some ==> player_of(cs[j].1) != player_of(cs[i].1));
        }
    }
}

/// Changing the world in a way that keeps every player and the map keeps a
/// server well formed.
pub proof fn lemma_wf_world(old: Server, new: Server)
    requires
        old.wf(),
        consistent(new.world, new.config),
        new.world.width == old.world.width,
        new.world.height == old.world.height,
        new.client_states@ == old.client_states@,
        forall|q: usize| #[trigger]
            has_player(old.world.players@, q) ==> has_player(new.world.players@, q),
        queues_ordered(new.world.players@),
    ensures
        new.wf(),
{
    let cs = old.client_states@;
    assert forall|i: int| 0 <= i < cs.len() implies match #[trigger] player_of(cs[i].1) {
        Some(pid) => has_player(new.world.players@, pid),
        None => true,
    } by {
        if let Some(q) = player_of(cs[i].1) {
            assert(has_player(old.world.players@, q));
        }
    }
}

/// A world whose players keep their ids keeps every player.
pub proof fn lemma_roster_keeps(old: World, new: World)
    requires
        new.same_roster(old),
    ensures
        forall|q: usize| #[trigger] has_player(old.players@, q) ==> has_player(new.players@, q),
{
    assert forall|q: usize| #[trigger] has_player(old.players@, q) implies has_player(new.players@, q) by {
        let j = choose|j: int| 0 <= j < old.players@.len() && #[trigger] old.players@[j].id == q;
        assert(new.players@[j].id == q);
    }
}

/// The `pnw` and `pin` lines that announce player `p` at `now`.
pub open spec fn arrival_lines(p: Player, freq: nat, now: nat) -> Seq<Seq<char>> {
    player_lines(seq![p], freq, now)
}

/// `new` is `old` after the player `pid` joined team `team` at `now` (see
/// [`World::joined_at`]), then was announced to the graphical clients.
pub open spec fn join_world(
    new: World,
    old: World,
    team: Seq<char>,
    now: nat,
    x: u32,
    y: u32,
    facing: Direction,
    pid: usize,
) -> bool {
    exists|mid: World|
        {
            &&& World::joined_at(mid, old, team, old.freq as nat, now, x, y, facing, Some(pid))
            &&& new == (World { gui_events: new.gui_events, ..mid })
            &&& new.events() == mid.events() + arrival_lines(mid.players@.last(), old.freq as nat, now)
            &&& new.players@.last() == mid.players@.last()
        }
}

/// The most commands a player can have waiting.
pub const MAX_QUEUED: usize = 10usize;

/// When a command `c` queued by `p` at `now` completes: its duration after
/// the later of `now` and the end of the commands already queued.
pub open spec fn queue_end(p: Player, c: CommandModel, now: nat, freq: nat) -> u64 {
    let start = if p.last_command_end >= now {
        p.last_command_end as nat
    } else {
        now
    };
    sat_add(start, units_to_nanos(command_duration(c) as nat, freq))
}

/// A queued command completes no earlier than the commands already queued
/// and than the moment it was queued: queued commands run one after the
/// other.
pub proof fn lemma_queue_end_after(p: Player, c: CommandModel, now: nat, freq: nat)
    ensures
        queue_end(p, c, now, freq) >= p.last_command_end,
        queue_end(p, c, now, freq) >= now || queue_end(p, c, now, freq) == u64::MAX,
{
}

/// No player ever has more than `MAX_QUEUED` commands waiting: queuing one
/// keeps that bound.
pub proof fn lemma_queue_bounded(new: World, old: World, pid: usize, c: CommandModel, now: nat)
    requires
        old.wf(),
        queue_in(new, old, pid, c, now),
        forall|j: int| 0 <= j < old.players@.len() ==> (#[trigger] old.players@[j]).commands@.len() <= MAX_QUEUED,
    ensures
        forall|j: int| 0 <= j < new.players@.len() ==> (#[trigger] new.players@[j]).commands@.len() <= MAX_QUEUED,
{
    if has_player(old.players@, pid) && old.player_with(pid).commands@.len() < MAX_QUEUED {
        let i = player_index(old.players@, pid);
        assert forall|j: int| 0 <= j < new.players@.len() implies (#[trigger] new.players@[j]).commands@.len() <= MAX_QUEUED by {
            if j != i {
                assert(new.players@[j] == old.players@[j]);
            }
        }
    }
}

/// `new` is `old` with command `c` queued to complete at `end`.
pub open spec fn queued(new: Player, old: Player, c: CommandModel, end: u64) -> bool {
    &&& new == (Player { commands: new.commands, last_command_end: end, ..old })
    &&& new.commands@.len() == old.commands@.len() + 1
    &&& new.commands@.drop_last() == old.commands@
    &&& new.commands@.last().command@ == c
    &&& new.commands@.last().end_time == end
}

/// `new` is `old` after player `pid` queued command `c` at `now`: nothing
/// changes when the player is unknown or already has `MAX_QUEUED` commands
/// waiting.
pub open spec fn queue_in(new: World, old: World, pid: usize, c: CommandModel, now: nat) -> bool {
    if has_player(old.players@, pid) && old.player_with(pid).commands@.len() < MAX_QUEUED {
        let i = player_index(old.players@, pid);
        let p = old.players@[i];
        &&& new == (World { players: new.players, ..old })
        &&& new.players@ == old.players@.update(i, new.players@[i])
        &&& queued(new.players@[i], p, c, queue_end(p, c, now, old.freq as nat))
    } else {
        new == old
    }
}

/// `new` is `old` after the resources were topped up at `now`, if their
/// time had come; the next top-up then comes 20 time units later.
pub open spec fn respawned(new: World, old: World, now: u64) -> bool {
    if now >= old.next_spawn_time {
        exists|mid: World|
            {
                &&& World::resources_spawned(mid, old)
                &&& new == (World {
                    next_spawn_time: sat_add(
                        now as nat,
                        units_to_nanos(RESPAWN_TIME as nat, old.freq as nat),
                    ),
                    ..mid
                })
            }
    } else {
        new == old
    }
}

/// How many of the commands `q` are due at `now`, counted from the front.
pub open spec fn due_count(q: Seq<PendingCommand>, now: u64) -> nat
    decreases q.len(),
{
    if q.len() == 0 || q[0].end_time > now {
        0
    } else {
        1 + due_count(q.drop_first(), now)
    }
}

pub proof fn lemma_due_count_bound(q: Seq<PendingCommand>, now: u64)
    ensures
        due_count(q, now) <= q.len(),
    decreases q.len(),
{
    if q.len() > 0 && q[0].end_time <= now {
        lemma_due_count_bound(q.drop_first(), now);
    }
}

/// The contents of a list of due commands: client, player, command.
pub open spec fn due_view(v: Seq<(usize, usize, Command)>) -> Seq<(usize, usize, CommandModel)> {
    v.map_values(|t: (usize, usize, Command)| (t.0, t.1, t.2@))
}

/// Takes the commands of `p` that are due at `now` out of its queue, in
/// order.
pub fn take_due(p: &mut Player, now: u64) -> (res: Vec<Command>)
    ensures
        *final(p) == (Player { commands: final(p).commands, ..*old(p) }),
        final(p).commands@ == old(p).commands@.skip(due_count(old(p).commands@, now) as int),
        res@.map_values(|c: Command| c@) == old(p).commands@.take(
            due_count(old(p).commands@, now) as int,
        ).map_values(|pc: PendingCommand| pc.command@),
{
    let ghost q0 = p.commands@;
    let mut res: Vec<Command> = Vec::new();
    let ghost mut n: int = 0;
    proof {
        lemma_due_count_bound(q0, now);
        assert(q0.skip(0) =~= q0);
    }
    while p.commands.len() > 0 && p.commands[0].end_time <= now
        invariant
            *p == (Player { commands: p.commands, ..*old(p) }),
            q0 == old(p).commands@,
            0 <= n <= q0.len(),
            p.commands@ == q0.skip(n),
            due_count(q0, now) == n + due_count(q0.skip(n), now),
            res@.map_values(|c: Command| c@) == q0.take(n).map_values(|pc: PendingCommand| pc.command@),
        decreases p.commands@.len(),
    {
        let pc = p.commands.pop_front().unwrap();
        proof {
            assert(pc == q0[n]);
            assert(q0.skip(n).drop_first() =~= q0.skip(n + 1));
        }
        let ghost prev = res@.map_values(|c: Command| c@);
        res.push(pc.command);
        proof {
            assert(res@.map_values(|c: Command| c@) =~= prev.push(q0[n].command@));
            assert(q0.take(n + 1) =~= q0.take(n).push(q0[n]));
            assert(q0.take(n + 1).map_values(|pc: PendingCommand| pc.command@) =~= q0.take(n).map_values(
                |pc: PendingCommand| pc.command@,
            ).push(q0[n].command@));
            n = n + 1;
        }
    }
    res
}

/// What surveying clients reports: texts to send, dying players (client,
/// player), due commands (client, player, command) and events for the
/// graphical clients.
pub struct Survey {
    pub sent: Seq<ActionModel>,
    pub dead: Seq<(usize, usize)>,
    pub due: Seq<(usize, usize, CommandModel)>,
    pub events: Seq<Seq<char>>,
}

pub open spec fn no_survey() -> Survey {
    Survey { sent: Seq::empty(), dead: Seq::empty(), due: Seq::empty(), events: Seq::empty() }
}

pub open spec fn join_survey(a: Survey, b: Survey) -> Survey {
    Survey { sent: a.sent + b.sent, dead: a.dead + b.dead, due: a.due + b.due, events: a.events + b.events }
}

/// What surveying client `c` in state `st` at `now` reports: a player
/// whose time is up is told `dead`; a living one has its due commands
/// taken, and a change of its food count is announced with `pin`.
pub open spec fn survey_one(c: usize, st: ClientState, w: World, now: u64) -> Survey {
    match player_of(st) {
        Some(pid) => if has_player(w.players@, pid) {
            let p = w.player_with(pid);
            if now >= p.death_time {
                Survey {
                    sent: seq![send(c, "dead\n"@)],
                    dead: seq![(c, pid)],
                    due: Seq::empty(),
                    events: Seq::empty(),
                }
            } else {
                Survey {
                    sent: Seq::empty(),
                    dead: Seq::empty(),
                    due: p.commands@.take(due_count(p.commands@, now) as int).map_values(
                        |pc: PendingCommand| (c, pid, pc.command@),
                    ),
                    events: if food_left(p.death_time as nat, now as nat, w.freq as nat)
                        != p.last_food_count {
                        seq![
                            pin_line(
                                pid as nat,
                                p.x as nat,
                                p.y as nat,
                                shown_counts(p, now as nat, w.freq as nat),
                            ),
                        ]
                    } else {
                        Seq::empty()
                    },
                }
            }
        } else {
            no_survey()
        },
        None => no_survey(),
    }
}

/// What surveying the clients `cs`, in order, reports.
pub open spec fn survey(cs: Seq<(usize, ClientState)>, w: World, now: u64) -> Survey
    decreases cs.len(),
{
    if cs.len() == 0 {
        no_survey()
    } else {
        join_survey(survey(cs.drop_last(), w, now), survey_one(cs.last().0, cs.last().1, w, now))
    }
}

/// Some client of `cs` controls player `pid`.
pub open spec fn controlled(cs: Seq<(usize, ClientState)>, pid: usize) -> bool {
    exists|m: int| 0 <= m < cs.len() && #[trigger] player_of(cs[m].1) == Some(pid)
}

pub proof fn lemma_controlled_step(cs: Seq<(usize, ClientState)>, k: int)
    requires
        0 <= k < cs.len(),
    ensures
        forall|pid: usize|
            #[trigger] controlled(cs.take(k + 1), pid) == (controlled(cs.take(k), pid) || player_of(
                cs[k].1,
            ) == Some(pid)),
{
    assert forall|pid: usize|
        #[trigger] controlled(cs.take(k + 1), pid) == (controlled(cs.take(k), pid) || player_of(cs[k].1)
            == Some(pid)) by {
        if controlled(cs.take(k + 1), pid) {
            let m = choose|m: int| 0 <= m < k + 1 && #[trigger] player_of(cs.take(k + 1)[m].1) == Some(pid);
            if m < k {
                assert(player_of(cs.take(k)[m].1) == Some(pid));
            }
        }
        if controlled(cs.take(k), pid) {
            let m = choose|m: int| 0 <= m < k && #[trigger] player_of(cs.take(k)[m].1) == Some(pid);
            assert(player_of(cs.take(k + 1)[m].1) == Some(pid));
        }
        if player_of(cs[k].1) == Some(pid) {
            assert(player_of(cs.take(k + 1)[k].1) == Some(pid));
        }
    }
}

/// `new` is player `old` surveyed at `now`: a living player's food count is
/// brought up to date and its due commands leave its queue.
pub open spec fn surveyed(new: Player, old: Player, now: u64, freq: nat) -> bool {
    if now >= old.death_time {
        new == old
    } else {
        &&& new == (Player {
            last_food_count: food_left(old.death_time as nat, now as nat, freq),
            commands: new.commands,
            ..old
        })
        &&& new.commands@ == old.commands@.skip(due_count(old.commands@, now) as int)
    }
}

/// `new` is world `old` after the clients `cs` were surveyed at `now`: the
/// players they control are surveyed, the others unchanged, and the events
/// of the survey are queued.
pub open spec fn surveyed_world(
    new: World,
    old: World,
    cs: Seq<(usize,
    ClientState)>,
    now: u64,
) -> bool {
    &&& new == (World { players: new.players, gui_events: new.gui_events, ..old })
    &&& new.players@.len() == old.players@.len()
    &&& forall|j: int|
        0 <= j < old.players@.len() ==> if controlled(cs, old.players@[j].id) {
            surveyed(#[trigger] new.players@[j], old.players@[j], now, old.freq as nat)
        } else {
            new.players@[j] == old.players@[j]
        }
    &&& new.events() == old.events() + survey(cs, old, now).events
}

/// `ws` are the worlds between which the due commands `due` ran at `now`,
/// one after the other, answering `rs`.
pub open spec fn ran(
    due: Seq<(usize, usize, CommandModel)>,
    ws: Seq<World>,
    rs: Seq<Seq<char>>,
    now: u64,
) -> bool {
    &&& ws.len() == due.len() + 1
    &&& rs.len() == due.len()
    &&& forall|i: int|
        0 <= i < due.len() ==> #[trigger] execute_effect(due[i].2, due[i].1, ws[i], ws[i + 1], now as nat, rs[i])
}

/// Each answer `rs[i]` sent to the client of `due[i]`.
pub open spec fn answers(due: Seq<(usize, usize, CommandModel)>, rs: Seq<Seq<char>>) -> Seq<ActionModel> {
    Seq::new(due.len(), |i: int| send(due[i].0, rs[i]))
}

/// `new` and `res` are what the death by hunger of player `pid`, controlled
/// by client `c`, makes of `old`: the graphical clients get `pdi`, the
/// dashboard learns of it, the player leaves the world and the client is
/// disconnected. Nothing happens unless `c` controls `pid`.
pub open spec fn buried_one(
    old: Server,
    new: Server,
    c: usize,
    pid: usize,
    res: Seq<ActionModel>,
) -> bool {
    if state_of(old.client_states@, c) == Some(ClientState::InGame(pid)) {
        let team = team_of(old.world, pid);
        &&& new.config == old.config
        &&& World::player_removed(new.world, old.world, pid)
        &&& new.client_states@ == without_client(old.client_states@, c)
        &&& res == broadcast(old.client_states@, lines::tagged_line("pdi"@, pid as nat)) + seq![
            log("Player "@ + dec(pid as nat) + " (Team: "@ + team + ") starved to death."@),
            event(EventModel::PlayerDied(team)),
            ActionModel::Disconnect(c),
            event(EventModel::ClientDisconnected),
        ]
    } else {
        &&& new == old
        &&& res == Seq::<ActionModel>::empty()
    }
}

/// `ss` are the servers between which the players `dead` died, one after
/// the other, with actions `outs`.
pub open spec fn buried(
    dead: Seq<(usize,
    usize)>,
    ss: Seq<Server>,
    outs: Seq<Seq<ActionModel>>,
) -> bool {
    &&& ss.len() == dead.len() + 1
    &&& outs.len() == dead.len()
    &&& forall|i: int|
        0 <= i < dead.len() ==> #[trigger] buried_one(ss[i], ss[i + 1], dead[i].0, dead[i].1, outs[i])
}

/// Removing the client number `k`, which controls `pid`, and the player
/// `pid` keeps a server well formed.
pub proof fn lemma_wf_remove(old: Server, new: Server, k: int, pid: usize)
    requires
        old.wf(),
        0 <= k < old.client_states@.len(),
        old.client_states@[k].1 == ClientState::InGame(pid),
        new.client_states@ == old.client_states@.remove(k),
        World::player_removed(new.world, old.world, pid),
        new.world.wf(),
        new.config == old.config,
    ensures
        new.wf(),
{
    let cs = old.client_states@;
    let ns = new.client_states@;
    lemma_remove_client(cs, k);
    assert forall|i: int| 0 <= i < ns.len() implies match #[trigger] player_of(ns[i].1) {
        Some(q) => has_player(new.world.players@, q),
        None => true,
    } by {
        let i0 = if i < k { i } else { i + 1 };
        assert(ns[i] == cs[i0]);
        assert(player_of(cs[i0].1) == player_of(cs[i0].1));
        if let Some(q) = player_of(cs[i0].1) {
            assert(player_of(cs[k].1) is Some);
            assert(player_of(cs[i0].1) != player_of(cs[k].1));
            lemma_other_player_stays(old.world, new.world, pid, q);
        }
    }
    assert forall|i: int, j: int|
        0 <= i < ns.len() && 0 <= j < ns.len() && i != j && #[trigger] player_of(ns[i].1) is Some implies #[trigger] player_of(
        ns[j].1) != player_of(ns[i].1) by {
        let i0 = if i < k { i } else { i + 1 };
        let j0 = if j < k { j } else { j + 1 };
        assert(ns[i] == cs[i0]);
        assert(ns[j] == cs[j0]);
        assert(player_of(cs[i0].1) is Some ==> player_of(cs[j0].1) != player_of(cs[i0].1));
    }
}

/// The eggs of `es` still alive at `now`, in order.
pub open spec fn live_eggs(es: Seq<Egg>, now: u64) -> Seq<Egg>
    decreases es.len(),
{
    if es.len() == 0 {
        Seq::empty()
    } else {
        live_eggs(es.drop_last(), now) + if now >= es.last().death_time {
            Seq::<Egg>::empty()
        } else {
            seq![es.last()]
        }
    }
}

/// The `edi` lines of the eggs of `es` that expired at `now`, in order.
pub open spec fn expired_lines(es: Seq<Egg>, now: u64) -> Seq<Seq<char>>
    decreases es.len(),
{
    if es.len() == 0 {
        Seq::empty()
    } else {
        expired_lines(es.drop_last(), now) + if now >= es.last().death_time {
            seq![tagged_line("edi"@, es.last().id as nat)]
        } else {
            Seq::<Seq<char>>::empty()
        }
    }
}

/// Each of `msgs`, in order, sent to every graphical client of `cs`.
pub open spec fn broadcasts(cs: Seq<(usize, ClientState)>, msgs: Seq<Seq<char>>) -> Seq<ActionModel>
    decreases msgs.len(),
{
    if msgs.len() == 0 {
        Seq::empty()
    } else {
        broadcasts(cs, msgs.drop_last()) + broadcast(cs, msgs.last())
    }
}

/// The waiting messages of the players that the clients `cs` control, each
/// sent to its client, client by client.
pub open spec fn notices(cs: Seq<(usize, ClientState)>, w: World) -> Seq<ActionModel>
    decreases cs.len(),
{
    if cs.len() == 0 {
        Seq::empty()
    } else {
        notices(cs.drop_last(), w) + match player_of(cs.last().1) {
            Some(pid) => if has_player(w.players@, pid) {
                sends(cs.last().0, notes(w.player_with(pid)))
            } else {
                Seq::<ActionModel>::empty()
            },
            None => Seq::<ActionModel>::empty(),
        }
    }
}

/// `new` is `old` once the players that the clients `cs` control have had
/// their waiting messages delivered.
pub open spec fn notified_world(new: World, old: World, cs: Seq<(usize, ClientState)>) -> bool {
    &&& new == (World { players: new.players, ..old })
    &&& new.players@.len() == old.players@.len()
    &&& forall|j: int|
        0 <= j < old.players@.len() ==> if controlled(cs, old.players@[j].id) {
            &&& #[trigger] new.players@[j] == (Player {
                notifications: new.players@[j].notifications,
                ..old.players@[j]
            })
            &&& new.players@[j].notifications@.len() == 0
        } else {
            new.players@[j] == old.players@[j]
        }
}

/// The positions of players `ps`, in order.
pub open spec fn positions(ps: Seq<Player>) -> Seq<(u32, u32)> {
    ps.map_values(|p: Player| (p.x, p.y))
}

/// What the end of a turn reports: the end of the game when a team won
/// (see [`victor`]), else the positions of the players.
pub open spec fn outcome(cs: Seq<(usize, ClientState)>, w: World) -> (bool, Seq<ActionModel>) {
    match victor(w.players@, w.players@) {
        Some(t) => (
            true,
            broadcast(cs, text_line("seg"@, t)) + seq![
                log("Game Over! Team "@ + t + " wins!"@),
                event(EventModel::GameOver(t)),
            ],
        ),
        None => (false, seq![event(EventModel::MapSnapshot(positions(w.players@)))]),
    }
}

/// Takes the waiting messages of `p` out of its queue, in order.
fn take_notes(p: &mut Player) -> (res: Vec<String>)
    ensures
        *final(p) == (Player { notifications: final(p).notifications, ..*old(p) }),
        final(p).notifications@.len() == 0,
        texts(res@) == notes(*old(p)),
{
    let ghost q0 = old(p).notifications@;
    let mut res: Vec<String> = Vec::new();
    let ghost mut n: int = 0;
    assert(q0.skip(0) =~= q0);
    while p.notifications.len() > 0
        invariant
            *p == (Player { notifications: p.notifications, ..*old(p) }),
            q0 == old(p).notifications@,
            0 <= n <= q0.len(),
            p.notifications@ == q0.skip(n),
            texts(res@) == texts(q0.take(n)),
        decreases p.notifications@.len(),
    {
        let m = p.notifications.pop_front().unwrap();
        proof {
            assert(m == q0[n]);
            assert(q0.skip(n).drop_first() =~= q0.skip(n + 1));
        }
        let ghost prev = texts(res@);
        res.push(m);
        proof {
            assert(texts(res@) =~= prev.push(q0[n]@));
            assert(q0.take(n + 1) =~= q0.take(n).push(q0[n]));
            assert(texts(q0.take(n + 1)) =~= texts(q0.take(n)).push(q0[n]@));
            n = n + 1;
        }
    }
    assert(q0.take(n) =~= q0);
    res
}

/// Every due command of a survey of `w` is one of a player of `w`.
pub proof fn lemma_survey_due_players(cs: Seq<(usize, ClientState)>, w: World, now: u64)
    ensures
        forall|i: int|
            0 <= i < survey(cs, w, now).due.len() ==> has_player(
                w.players@,
                #[trigger] survey(cs, w, now).due[i].1,
            ),
    decreases cs.len(),
{
    if cs.len() > 0 {
        lemma_survey_due_players(cs.drop_last(), w, now);
        let a = survey(cs.drop_last(), w, now);
        let b = survey_one(cs.last().0, cs.last().1, w, now);
        assert forall|i: int| 0 <= i < survey(cs, w, now).due.len() implies has_player(
            w.players@,
            #[trigger] survey(cs, w, now).due[i].1,
        ) by {
            if i < a.due.len() {
                assert(survey(cs, w, now).due[i] == a.due[i]);
            } else {
                assert(survey(cs, w, now).due[i] == b.due[i - a.due.len()]);
                if let Some(pid) = player_of(cs.last().1) {
                    if has_player(w.players@, pid) {
                        let p = w.player_with(pid);
                        if now < p.death_time {
                            let q = p.commands@.take(due_count(p.commands@, now) as int);
                            assert(b.due[i - a.due.len()] == (cs.last().0, pid, q[i - a.due.len()].command@));
                        }
                    }
                }
            }
        }
    }
}

/// `a` has the configuration and the clients of `b`.
pub open spec fn same_clients(a: Server, b: Server) -> bool {
    &&& a.config == b.config
    &&& a.client_states@ == b.client_states@
}

/// `new`, `stop` and `res` are what one turn of the loop at `now` makes of
/// `old`, phase after phase: the resources are topped up when due
/// ([`respawned`]); the clients are surveyed ([`survey`],
/// [`surveyed_world`]); the due commands run ([`ran`]); the starved players
/// die ([`buried`]); expired eggs go ([`live_eggs`]); the world's events
/// are broadcast; the players' messages are delivered ([`notices`]); and
/// the turn ends ([`outcome`]).
pub open spec fn ticked(
    old: Server,
    new: Server,
    now: u64,
    stop: bool,
    res: Seq<ActionModel>,
) -> bool {
    exists|
        s1: Server,
        s2: Server,
        ws: Seq<World>,
        rs: Seq<Seq<char>>,
        ss: Seq<Server>,
        outs: Seq<Seq<ActionModel>>,
        s5: Server,
        s6: Server,
    | #[trigger] tick_phases(old, new, now, stop, res, s1, s2, ws, rs, ss, outs, s5, s6)
}

/// The phases of a turn, through the servers `s1` (resources topped up),
/// `s2` (clients surveyed), the worlds `ws` (commands run, answering `rs`),
/// the servers `ss` (starved players removed, with actions `outs`), `s5`
/// (expired eggs removed) and `s6` (events broadcast).
pub open spec fn tick_phases(
    old: Server,
    new: Server,
    now: u64,
    stop: bool,
    res: Seq<ActionModel>,
    s1: Server,
    s2: Server,
    ws: Seq<World>,
    rs: Seq<Seq<char>>,
    ss: Seq<Server>,
    outs: Seq<Seq<ActionModel>>,
    s5: Server,
    s6: Server,
) -> bool {
        let sv = survey(old.client_states@, s1.world, now);
        let s4 = ss.last();
        &&& same_clients(s1, old)
        &&& respawned(s1.world, old.world, now)
        &&& same_clients(s2, s1)
        &&& surveyed_world(s2.world, s1.world, s1.client_states@, now)
        &&& ran(sv.due, ws, rs, now)
        &&& ws[0] == s2.world
        &&& buried(sv.dead, ss, outs)
        &&& ss[0].world == ws.last()
        &&& same_clients(ss[0], s2)
        &&& same_clients(s5, s4)
        &&& s5.world == (World { eggs: s5.world.eggs, ..s4.world })
        &&& s5.world.eggs@ == live_eggs(s4.world.eggs@, now)
        &&& same_clients(s6, s5)
        &&& s6.world == (World { gui_events: s6.world.gui_events, ..s5.world })
        &&& s6.world.gui_events@.len() == 0
        &&& same_clients(new, s6)
        &&& notified_world(new.world, s6.world, s6.client_states@)
        &&& stop == outcome(new.client_states@, new.world).0
        &&& res == sv.sent + answers(sv.due, rs) + outs.flatten() + broadcasts(
            s4.client_states@,
            expired_lines(s4.world.eggs@, now),
        ) + broadcasts(s5.client_states@, s5.world.events()) + notices(s6.client_states@, s6.world)
            + outcome(new.client_states@, new.world).1
}

/// The longest the loop waits for an event, in nanoseconds (100 ms).
pub const MAX_WAIT: u64 = 100_000_000u64;

pub open spec fn min_nat(a: nat, b: nat) -> nat {
    if a <= b {
        a
    } else {
        b
    }
}

/// The next moment something happens to player `p`: its first queued
/// command completes, or it starves.
pub open spec fn player_deadline(p: Player) -> nat {
    if p.commands@.len() > 0 {
        min_nat(p.commands@[0].end_time as nat, p.death_time as nat)
    } else {
        p.death_time as nat
    }
}

/// The earliest of `bound` and the deadlines of the players `ps`.
pub open spec fn players_deadline(ps: Seq<Player>, bound: nat) -> nat
    decreases ps.len(),
{
    if ps.len() == 0 {
        bound
    } else {
        min_nat(players_deadline(ps.drop_last(), bound), player_deadline(ps.last()))
    }
}

/// The earliest of `bound` and the expiry times of the eggs `es`.
pub open spec fn eggs_deadline(es: Seq<Egg>, bound: nat) -> nat
    decreases es.len(),
{
    if es.len() == 0 {
        bound
    } else {
        min_nat(eggs_deadline(es.drop_last(), bound), es.last().death_time as nat)
    }
}

/// The next moment something happens in `w`, seen at `now`: a command
/// completes, a player starves, an egg expires or resources respawn; at the
/// latest `MAX_WAIT` after `now`.
pub open spec fn next_deadline(w: World, now: u64) -> nat {
    min_nat(
        eggs_deadline(w.eggs@, players_deadline(w.players@, sat_add(now as nat, MAX_WAIT as nat) as nat)),
        w.next_spawn_time as nat,
    )
}

/// The commands queued by `p` come in the order in which they end, and the
/// last one ends at `p.last_command_end`.
pub open spec fn queue_ordered(p: Player) -> bool {
    &&& forall|a: int, b: int|
        0 <= a <= b < p.commands@.len() ==> #[trigger] p.commands@[a].end_time
            <= #[trigger] p.commands@[b].end_time
    &&& p.commands@.len() > 0 ==> p.commands@.last().end_time == p.last_command_end
}

/// Every player of `ps` has its queue in order.
pub open spec fn queues_ordered(ps: Seq<Player>) -> bool {
    forall|j: int| 0 <= j < ps.len() ==> queue_ordered(#[trigger] ps[j])
}

/// Players with the queues of ordered players have ordered queues.
pub proof fn lemma_ordered_same_queues(old: World, new: World)
    requires
        queues_ordered(old.players@),
        new.same_queues(old),
    ensures
        queues_ordered(new.players@),
{
    assert forall|j: int| 0 <= j < new.players@.len() implies queue_ordered(#[trigger] new.players@[j]) by {
        assert(queue_ordered(old.players@[j]));
    }
}

/// Removing a player keeps the other queues in order.
pub proof fn lemma_ordered_removed(old: World, new: World, pid: usize)
    requires
        queues_ordered(old.players@),
        World::player_removed(new, old, pid),
    ensures
        queues_ordered(new.players@),
{
    if has_player(old.players@, pid) {
        let i = player_index(old.players@, pid);
        assert forall|j: int| 0 <= j < new.players@.len() implies queue_ordered(#[trigger] new.players@[j]) by {
            let j0 = if j < i { j } else { j + 1 };
            assert(new.players@[j] == old.players@[j0]);
            assert(queue_ordered(old.players@[j0]));
        }
    }
}

/// Whatever is left of an ordered queue after its due commands are taken is
/// ordered, and ends where the queue ended.
pub proof fn lemma_ordered_skip(p: Player, q: Player, n: int)
    requires
        queue_ordered(p),
        0 <= n <= p.commands@.len(),
        q.commands@ == p.commands@.skip(n),
        q.last_command_end == p.last_command_end,
    ensures
        queue_ordered(q),
{
    assert forall|a: int, b: int| 0 <= a <= b < q.commands@.len() implies #[trigger] q.commands@[a].end_time
        <= #[trigger] q.commands@[b].end_time by {
        assert(q.commands@[a] == p.commands@[a + n]);
        assert(q.commands@[b] == p.commands@[b + n]);
    }
    if q.commands@.len() > 0 {
        assert(q.commands@.last() == p.commands@.last());
    }
}

/// In an ordered queue, the commands left after the due ones all end after
/// `now`.
pub proof fn lemma_rest_not_due(q: Seq<PendingCommand>, now: u64)
    requires
        forall|a: int, b: int| 0 <= a <= b < q.len() ==> #[trigger] q[a].end_time <= #[trigger] q[b].end_time,
    ensures
        forall|k: int| due_count(q, now) <= k < q.len() ==> #[trigger] q[k].end_time > now,
    decreases q.len(),
{
    if q.len() > 0 {
        if q[0].end_time > now {
            assert forall|k: int| due_count(q, now) <= k < q.len() implies #[trigger] q[k].end_time > now by {
                assert(q[0].end_time <= q[k].end_time);
            }
        } else {
            let r = q.drop_first();
            assert forall|a: int, b: int| 0 <= a <= b < r.len() implies #[trigger] r[a].end_time <= #[trigger] r[b].end_time by {
                assert(r[a] == q[a + 1]);
                assert(r[b] == q[b + 1]);
            }
            lemma_rest_not_due(r, now);
            assert forall|k: int| due_count(q, now) <= k < q.len() implies #[trigger] q[k].end_time > now by {
                assert(q[k] == r[k - 1]);
            }
        }
    }
}

/// Rescaling keeps deadlines in order.
pub proof fn lemma_rescaled_monotone(t1: u64, t2: u64, now: u64, f: u32, g: u32)
    requires
        t1 <= t2,
        g > 0,
    ensures
        crate::gui::commands::time::rescaled(t1, now, f, g) <= crate::gui::commands::time::rescaled(t2, now, f, g),
{
    if t1 > now {
        let a = ((t1 - now) * f) as nat;
        let b = ((t2 - now) * f) as nat;
        assert(a <= b) by (nonlinear_arith)
            requires
                a == (t1 - now) * f,
                b == (t2 - now) * f,
                t1 <= t2,
                t1 > now,
        ;
        vstd::arithmetic::div_mod::lemma_div_is_ordered(a as int, b as int, g as int);
    }
}

/// Rescaling a player's deadlines keeps its queue in order.
pub proof fn lemma_rescale_ordered(p: Player, q: Player, now: u64, f: u32, g: u32)
    requires
        queue_ordered(p),
        g > 0,
        crate::gui::commands::time::rescaled_player(p, q, now, f, g),
    ensures
        queue_ordered(q),
{
    assert forall|a: int, b: int| 0 <= a <= b < q.commands@.len() implies #[trigger] q.commands@[a].end_time
        <= #[trigger] q.commands@[b].end_time by {
        assert(q.commands@[a].end_time == crate::gui::commands::time::rescaled(p.commands@[a].end_time, now, f, g));
        assert(q.commands@[b].end_time == crate::gui::commands::time::rescaled(p.commands@[b].end_time, now, f, g));
        assert(p.commands@[a].end_time <= p.commands@[b].end_time);
        lemma_rescaled_monotone(p.commands@[a].end_time, p.commands@[b].end_time, now, f, g);
    }
    if q.commands@.len() > 0 {
        let n = q.commands@.len() - 1;
        assert(q.commands@[n].end_time == crate::gui::commands::time::rescaled(p.commands@[n].end_time, now, f, g));
    }
}

/// Every player of `new` is a player of `old`.
pub open spec fn players_kept(new: World, old: World) -> bool {
    forall|j: int| 0 <= j < new.players@.len() ==> old.players@.contains(#[trigger] new.players@[j])
}

/// Every client of `new` is a client of `old`, in the same state.
pub open spec fn clients_kept(new: Seq<(usize, ClientState)>, old: Seq<(usize, ClientState)>) -> bool {
    forall|c: usize| #[trigger]
        has_client(new, c) ==> has_client(old, c) && state_of(new, c) == state_of(old, c)
}

/// The clients of `old` missing from `new` controlled no player left in `w`.
pub open spec fn gone_unplayed(
    new: Seq<(usize, ClientState)>,
    old: Seq<(usize, ClientState)>,
    w: World,
) -> bool {
    forall|c: usize|
        has_client(old, c) && !has_client(new, c) ==> match #[trigger] state_of(old, c) {
            Some(ClientState::InGame(q)) => !has_player(w.players@, q),
            _ => true,
        }
}

/// Removing a player leaves only players that were there.
pub proof fn lemma_removed_kept(old: World, new: World, pid: usize)
    requires
        World::player_removed(new, old, pid),
    ensures
        players_kept(new, old),
        forall|q: usize| #[trigger] has_player(new.players@, q) ==> has_player(old.players@, q),
{
    if has_player(old.players@, pid) {
        let i = player_index(old.players@, pid);
        assert forall|j: int| 0 <= j < new.players@.len() implies old.players@.contains(#[trigger] new.players@[j]) by {
            let j0 = if j < i { j } else { j + 1 };
            assert(new.players@[j] == old.players@[j0]);
        }
        assert forall|q: usize| #[trigger] has_player(new.players@, q) implies has_player(old.players@, q) by {
            let j = choose|j: int| 0 <= j < new.players@.len() && #[trigger] new.players@[j].id == q;
            let j0 = if j < i { j } else { j + 1 };
            assert(new.players@[j] == old.players@[j0]);
        }
    } else {
        assert forall|j: int| 0 <= j < new.players@.len() implies old.players@.contains(#[trigger] new.players@[j]) by {
            assert(new.players@[j] == old.players@[j]);
        }
    }
}

/// Removing a client leaves the others, in the same state.
pub proof fn lemma_state_after_remove(cs: Seq<(usize, ClientState)>, k: int, c: usize)
    requires
        clients_distinct(cs),
        0 <= k < cs.len(),
        cs[k].0 != c,
    ensures
        has_client(cs.remove(k), c) == has_client(cs, c),
        state_of(cs.remove(k), c) == state_of(cs, c),
{
    let r = cs.remove(k);
    lemma_remove_client(cs, k);
    if has_client(cs, c) {
        let m = client_index(cs, c);
        assert(cs[m].0 == c);
        assert(m != k);
        let m2 = if m < k { m } else { m - 1 };
        assert(r[m2] == cs[m]);
        lemma_client_index(r, m2);
    }
    if has_client(r, c) {
        let m2 = choose|m2: int| 0 <= m2 < r.len() && #[trigger] r[m2].0 == c;
        let m = if m2 < k { m2 } else { m2 + 1 };
        assert(r[m2] == cs[m]);
        assert(cs[m].0 == c);
    }
}

/// No player that a client of `cs` controls has a command waiting in `w`
/// that ends at `now` or before.
pub open spec fn none_due(w: World, cs: Seq<(usize, ClientState)>, now: u64) -> bool {
    forall|j: int, k: int|
        0 <= j < w.players@.len() && controlled(cs, w.players@[j].id) && 0 <= k
            < w.players@[j].commands@.len() ==> #[trigger] w.players@[j].commands@[k].end_time > now
}

/// A survey at `now` reports as dying every player that a client controls
/// and whose time is up, with that client.
pub proof fn lemma_survey_dead(cs: Seq<(usize, ClientState)>, w: World, now: u64)
    ensures
        forall|m: int|
            0 <= m < cs.len() ==> match #[trigger] player_of(cs[m].1) {
                Some(pid) => has_player(w.players@, pid) && now >= w.player_with(pid).death_time
                    ==> survey(cs, w, now).dead.contains((cs[m].0, pid)),
                None => true,
            },
    decreases cs.len(),
{
    if cs.len() > 0 {
        let r = cs.drop_last();
        lemma_survey_dead(r, w, now);
        let a = survey(r, w, now);
        let b = survey_one(cs.last().0, cs.last().1, w, now);
        assert(survey(cs, w, now).dead == a.dead + b.dead);
        assert forall|m: int| 0 <= m < cs.len() implies match #[trigger] player_of(cs[m].1) {
            Some(pid) => has_player(w.players@, pid) && now >= w.player_with(pid).death_time
                ==> survey(cs, w, now).dead.contains((cs[m].0, pid)),
            None => true,
        } by {
            if let Some(pid) = player_of(cs[m].1) {
                if has_player(w.players@, pid) && now >= w.player_with(pid).death_time {
                    if m < cs.len() - 1 {
                        assert(r[m] == cs[m]);
                        assert(player_of(r[m].1) == Some(pid));
                        let i = choose|i: int| 0 <= i < a.dead.len() && a.dead[i] == (cs[m].0, pid);
                        assert((a.dead + b.dead)[i] == (cs[m].0, pid));
                    } else {
                        assert(b.dead == seq![(cs[m].0, pid)]);
                        assert((a.dead + b.dead)[a.dead.len() as int] == (cs[m].0, pid));
                    }
                }
            }
        }
    }
}

/// Clients kept in their state control only players they controlled.
pub proof fn lemma_controlled_kept(new: Seq<(usize, ClientState)>, old: Seq<(usize, ClientState)>, q: usize)
    requires
        clients_distinct(new),
        clients_kept(new, old),
        controlled(new, q),
    ensures
        controlled(old, q),
{
    let m = choose|m: int| 0 <= m < new.len() && #[trigger] player_of(new[m].1) == Some(q);
    let c = new[m].0;
    lemma_client_index(new, m);
    assert(has_client(new, c));
    assert(state_of(new, c) == Some(new[m].1));
    let m0 = client_index(old, c);
    assert(old[m0].1 == new[m].1);
    assert(player_of(old[m0].1) == Some(q));
}

/// The whole server: its configuration, its world and its clients.
pub struct Server {
    pub config: ServerConfig,
    pub world: World,
    /// The connected clients and their states, in order of arrival.
    pub client_states: Vec<(usize, ClientState)>,
}

impl Server {
    /// The invariant of a server: its world is well formed and agrees with
    /// its configuration; its map is not empty; clients are known once; an
    /// in-game client controls a player of the world, and no other client
    /// controls the same one.
    pub open spec fn wf(self) -> bool {
        let cs = self.client_states@;
        &&& consistent(self.world, self.config)
        &&& queues_ordered(self.world.players@)
        &&& self.world.width > 0
        &&& self.world.height > 0
        &&& clients_distinct(cs)
        &&& forall|i: int|
            0 <= i < cs.len() ==> match #[trigger] player_of(cs[i].1) {
                Some(pid) => has_player(self.world.players@, pid),
                None => true,
            }
        &&& forall|i: int, j: int|
            0 <= i < cs.len() && 0 <= j < cs.len() && i != j && #[trigger] player_of(cs[i].1)
                is Some ==> #[trigger] player_of(cs[j].1) != player_of(cs[i].1)
    }

    /// Creates a server for a configuration: its world has the configured
    /// map, teams, slots and frequency, and no client is connected.
    pub fn new(config: ServerConfig) -> (res: Server)
        requires
            config.runnable(),
        ensures
            res.wf(),
            res.config == config,
            res.client_states@.len() == 0,
            res.world.players@.len() == 0,
            res.world.eggs@.len() == 0,
            forall|n: Seq<char>|
                has_team(res.world.team_slots@, n) <==> config.teams@.map_values(|t: String| t@).contains(n),
            forall|i: int|
                0 <= i < res.world.team_slots@.len() ==> #[trigger] res.world.team_slots@[i].slots
                    == config.clients_nb,
    {
        let teams = config.teams.clone();
        proof {
            assert(teams@.map_values(|t: String| t@) =~= config.teams@.map_values(|t: String| t@));
        }
        let world = World::new(config.width, config.height, teams, config.clients_nb, config.freq);
        Server { config, world, client_states: Vec::new() }
    }

    /// Where client `id` stands among the clients, if it is known.
    pub fn find_client(&self, id: usize) -> (res: Option<usize>)
        requires
            clients_distinct(self.client_states@),
        ensures
            match res {
                Some(i) => {
                    &&& has_client(self.client_states@, id)
                    &&& i == client_index(self.client_states@, id)
                    &&& i < self.client_states@.len()
                    &&& self.client_states@[i as int].0 == id
                },
                None => !has_client(self.client_states@, id),
            },
    {
        let mut i: usize = 0;
        while i < self.client_states.len()
            invariant
                i <= self.client_states@.len(),
                clients_distinct(self.client_states@),
                forall|j: int| 0 <= j < i ==> self.client_states@[j].0 != id,
            decreases self.client_states.len() - i,
        {
            if self.client_states[i].0 == id {
                proof {
                    lemma_client_index(self.client_states@, i as int);
                }
                return Some(i);
            }
            i = i + 1;
        }
        None
    }

    /// Queues `msg` for every graphical client, in order.
    pub fn broadcast_gui(&self, msg: &str, out: &mut Vec<Action>)
        ensures
            actions(final(out)@) == actions(old(out)@) + broadcast(self.client_states@, msg@),
    {
        let ghost cs = self.client_states@;
        let ghost start = actions(out@);
        let mut i: usize = 0;
        while i < self.client_states.len()
            invariant
                cs == self.client_states@,
                i <= cs.len(),
                actions(out@) == start + broadcast(cs.take(i as int), msg@),
            decreases self.client_states.len() - i,
        {
            let ghost prev = actions(out@);
            assert(cs.take(i + 1).drop_last() =~= cs.take(i as int));
            let (id, st) = self.client_states[i];
            if st == ClientState::Graphic {
                out.push(Action::Send(id, lines::fixed(msg)));
                assert(actions(out@) =~= prev.push(send(id, msg@)));
            }
            i = i + 1;
            assert(actions(out@) =~= start + broadcast(cs.take(i as int), msg@));
        }
        assert(cs.take(cs.len() as int) =~= cs);
    }

    /// A client connected: it is greeted with `WELCOME` and waits to
    /// authenticate.
    pub fn on_client_connected(&mut self, client_id: usize) -> (res: Vec<Action>)
        requires
            old(self).wf(),
        ensures
            final(self).wf(),
            final(self).world == old(self).world,
            final(self).config == old(self).config,
            final(self).client_states@ == with_state(
                old(self).client_states@,
                client_id,
                ClientState::Authenticating,
            ),
            actions(res@) == seq![
                send(client_id, "WELCOME\n"@),
                log("New connection from client "@ + dec(client_id as nat)),
                event(EventModel::ClientConnected),
            ],
    {
        let ghost cs = self.client_states@;
        match self.find_client(client_id) {
            Some(k) => {
                self.client_states.set(k, (client_id, ClientState::Authenticating));
                assert forall|a: int, b: int|
                    0 <= a < self.client_states@.len() && 0 <= b < self.client_states@.len() && a != b
                    implies #[trigger] self.client_states@[a].0 != #[trigger] self.client_states@[b].0 by {
                    assert(cs[a].0 != cs[b].0);
                }
                assert forall|i: int| 0 <= i < self.client_states@.len() implies match #[trigger] player_of(self.client_states@[i].1) {
                    Some(pid) => has_player(self.world.players@, pid),
                    None => true,
                } by {
                    if i != k {
                        assert(self.client_states@[i] == cs[i]);
                        assert(player_of(cs[i].1) == player_of(cs[i].1));
                    }
                }
                assert forall|i: int, j: int|
                    0 <= i < self.client_states@.len() && 0 <= j < self.client_states@.len() && i != j
                        && #[trigger] player_of(self.client_states@[i].1) is Some
                    implies #[trigger] player_of(self.client_states@[j].1) != player_of(self.client_states@[i].1) by {
                    if i != k && j != k {
                        assert(self.client_states@[i] == cs[i]);
                        assert(self.client_states@[j] == cs[j]);
                        assert(player_of(cs[i].1) is Some ==> player_of(cs[j].1) != player_of(cs[i].1));
                    }
                }
            },
            None => {
                self.client_states.push((client_id, ClientState::Authenticating));
                assert forall|a: int, b: int|
                    0 <= a < self.client_states@.len() && 0 <= b < self.client_states@.len() && a != b
                    implies #[trigger] self.client_states@[a].0 != #[trigger] self.client_states@[b].0 by {
                    if a < cs.len() && b < cs.len() {
                        assert(cs[a].0 != cs[b].0);
                    } else if a < cs.len() {
                        assert(cs[a].0 == self.client_states@[a].0);
                    } else {
                        assert(cs[b].0 == self.client_states@[b].0);
                    }
                }
                assert forall|i: int| 0 <= i < self.client_states@.len() implies match #[trigger] player_of(self.client_states@[i].1) {
                    Some(pid) => has_player(self.world.players@, pid),
                    None => true,
                } by {
                    if i < cs.len() {
                        assert(self.client_states@[i] == cs[i]);
                        assert(player_of(cs[i].1) == player_of(cs[i].1));
                    }
                }
                assert forall|i: int, j: int|
                    0 <= i < self.client_states@.len() && 0 <= j < self.client_states@.len() && i != j
                        && #[trigger] player_of(self.client_states@[i].1) is Some
                    implies #[trigger] player_of(self.client_states@[j].1) != player_of(self.client_states@[i].1) by {
                    if i < cs.len() && j < cs.len() {
                        assert(self.client_states@[i] == cs[i]);
                        assert(self.client_states@[j] == cs[j]);
                        assert(player_of(cs[i].1) is Some ==> player_of(cs[j].1) != player_of(cs[i].1));
                    }
                }
            },
        }
        let mut out: Vec<Action> = Vec::new();
        out.push(Action::Send(client_id, lines::fixed("WELCOME\n")));
        out.push(Action::Event(ServerEvent::Log(numbered("New connection from client ", client_id as u128))));
        out.push(Action::Event(ServerEvent::ClientConnected));
        assert(actions(out@) =~= seq![
            send(client_id, "WELCOME\n"@),
            log("New connection from client "@ + dec(client_id as nat)),
            event(EventModel::ClientConnected),
        ]);
        out
    }

    /// A client left: it is forgotten, and the player it controlled (if
    /// any) dies: the graphical clients get `pdi`, and the player leaves the
    /// world, giving its slot back to its team.
    pub fn on_client_disconnected(&mut self, client_id: usize) -> (res: Vec<Action>)
        requires
            old(self).wf(),
        ensures
            final(self).wf(),
            final(self).config == old(self).config,
            final(self).client_states@ == without_client(old(self).client_states@, client_id),
            match state_of(old(self).client_states@, client_id) {
                Some(ClientState::InGame(pid)) => World::player_removed(
                    final(self).world,
                    old(self).world,
                    pid,
                ),
                _ => final(self).world == old(self).world,
            },
            actions(res@) == seq![
                log("Client "@ + dec(client_id as nat) + " disconnected"@),
                event(EventModel::ClientDisconnected),
            ] + match state_of(old(self).client_states@, client_id) {
                Some(ClientState::InGame(pid)) => broadcast(
                    without_client(old(self).client_states@, client_id),
                    lines::tagged_line("pdi"@, pid as nat),
                ) + seq![event(EventModel::PlayerDied(team_of(old(self).world, pid)))],
                _ => Seq::empty(),
            },
    {
        let ghost cs = self.client_states@;
        let ghost w0 = self.world;
        let mut out: Vec<Action> = Vec::new();
        let mut m = numbered("Client ", client_id as u128);
        m.append(" disconnected");
        out.push(Action::Event(ServerEvent::Log(m)));
        out.push(Action::Event(ServerEvent::ClientDisconnected));
        let ghost head = actions(out@);
        match self.find_client(client_id) {
            Some(k) => {
                let (_, st) = self.client_states.remove(k);
                proof {
                    lemma_remove_client(cs, k as int);
                    assert(self.client_states@ =~= cs.remove(k as int));
                }
                assert(state_of(cs, client_id) == Some(st));
                assert(without_client(cs, client_id) == self.client_states@);
                if let ClientState::InGame(pid) = st {
                    let line = lines::tagged("pdi", pid as u64);
                    self.broadcast_gui(line.as_str(), &mut out);
                    let team = match self.world.find_player(pid) {
                        Some(i) => self.world.players[i].team.clone(),
                        None => String::new(),
                    };
                    assert(team@ == team_of(w0, pid));
                    self.world.remove_player(pid);
                    let ghost mid = actions(out@);
                    out.push(Action::Event(ServerEvent::PlayerDied(team)));
                    assert(actions(out@) =~= mid.push(event(EventModel::PlayerDied(team_of(w0, pid)))));
                    proof {
                        assert forall|i: int| 0 <= i < self.client_states@.len() implies match #[trigger] player_of(self.client_states@[i].1) {
                            Some(q) => has_player(self.world.players@, q),
                            None => true,
                        } by {
                            let i0 = if i < k { i } else { i + 1 };
                            assert(self.client_states@[i] == cs[i0]);
                            assert(player_of(cs[i0].1) == player_of(cs[i0].1));
                            if let Some(q) = player_of(cs[i0].1) {
                                assert(player_of(cs[k as int].1) is Some);
                                assert(player_of(cs[i0].1) != player_of(cs[k as int].1));
                                lemma_other_player_stays(w0, self.world, pid, q);
                            }
                        }
                    }
                } else {
                    proof {
                        assert forall|i: int| 0 <= i < self.client_states@.len() implies match #[trigger] player_of(self.client_states@[i].1) {
                            Some(q) => has_player(self.world.players@, q),
                            None => true,
                        } by {
                            let i0 = if i < k { i } else { i + 1 };
                            assert(self.client_states@[i] == cs[i0]);
                            assert(player_of(cs[i0].1) == player_of(cs[i0].1));
                        }
                    }
                }
                proof {
                    assert forall|i: int, j: int|
                        0 <= i < self.client_states@.len() && 0 <= j < self.client_states@.len() && i != j
                            && #[trigger] player_of(self.client_states@[i].1) is Some
                        implies #[trigger] player_of(self.client_states@[j].1) != player_of(self.client_states@[i].1) by {
                        let i0 = if i < k { i } else { i + 1 };
                        let j0 = if j < k { j } else { j + 1 };
                        assert(self.client_states@[i] == cs[i0]);
                        assert(self.client_states@[j] == cs[j0]);
                        assert(player_of(cs[i0].1) is Some ==> player_of(cs[j0].1) != player_of(cs[i0].1));
                    }
                }
            },
            None => {},
        }
        assert(actions(out@) =~= head + match state_of(cs, client_id) {
            Some(ClientState::InGame(pid)) => broadcast(
                without_client(cs, client_id),
                lines::tagged_line("pdi"@, pid as nat),
            ) + seq![event(EventModel::PlayerDied(team_of(w0, pid)))],
            _ => Seq::empty(),
        });
        out
    }

    /// `new` and `res` are what welcoming client number `k` as a graphical
    /// client at `now` makes of `old`.
    pub open spec fn welcomed(
        old: Server,
        new: Server,
        k: usize,
        now: u64,
        res: Seq<ActionModel>,
    ) -> bool {
        &&& new.world == old.world
        &&& new.config == old.config
        &&& new.client_states@ == old.client_states@.update(
            k as int,
            (old.client_states@[k as int].0, ClientState::Graphic),
        )
        &&& res == sends(
            old.client_states@[k as int].0,
            welcome_lines(old.world, old.config, now as nat),
        ) + seq![
            log(
                "Graphic client connected (ID: "@ + dec(old.client_states@[k as int].0 as nat)
                    + ")"@,
            ),
        ]
    }

    /// Client number `k` authenticated as a graphical client at `now`: it
    /// receives the whole state of the game (see [`welcome_lines`]).
    pub fn welcome_graphic(&mut self, k: usize, now: u64) -> (res: Vec<Action>)
        requires
            old(self).wf(),
            k < old(self).client_states@.len(),
        ensures
            final(self).wf(),
            Server::welcomed(*old(self), *final(self), k, now, actions(res@)),
    {
        let ghost old_self = *self;
        let client_id = self.client_states[k].0;
        self.client_states.set(k, (client_id, ClientState::Graphic));
        proof {
            lemma_wf_update(old_self, *self, k as int, ClientState::Graphic);
        }
        let mut ls: Vec<String> = Vec::new();
        ls.push(lines::fixed("smg Welcome to Zappy Server!\n"));
        let mut part = crate::gui::commands::map::execute(GuiCommand::MapSize, &self.world, &self.config);
        ls.append(&mut part);
        ls.push(lines::value("sgt", self.config.freq as u64));
        let mut part = crate::gui::commands::map::execute(GuiCommand::MapContent, &self.world, &self.config);
        ls.append(&mut part);
        let mut part = crate::gui::commands::map::execute(GuiCommand::TeamNames, &self.world, &self.config);
        ls.append(&mut part);
        let ghost head = texts(ls@);
        let freq = self.world.freq;
        let mut i: usize = 0;
        while i < self.world.players.len()
            invariant
                self.world.wf(),
                freq == self.world.freq,
                i <= self.world.players@.len(),
                texts(ls@) == head + player_lines(self.world.players@.take(i as int), freq as nat, now as nat),
            decreases self.world.players.len() - i,
        {
            let p = &self.world.players[i];
            let a = lines::pnw(p.id, p.x, p.y, p.direction.orientation(), p.level, p.team.as_str());
            let c = shown(p, freq, now);
            let b = lines::pin(p.id, p.x, p.y, &c);
            let ghost prev = texts(ls@);
            ls.push(a);
            ls.push(b);
            assert(texts(ls@) =~= prev + seq![a@, b@]);
            assert(self.world.players@.take(i + 1).drop_last() =~= self.world.players@.take(i as int));
            i = i + 1;
        }
        assert(self.world.players@.take(self.world.players@.len() as int) =~= self.world.players@);
        let ghost mid = texts(ls@);
        let mut j: usize = 0;
        while j < self.world.eggs.len()
            invariant
                j <= self.world.eggs@.len(),
                texts(ls@) == mid + egg_lines(self.world.eggs@.take(j as int)),
            decreases self.world.eggs.len() - j,
        {
            let e = &self.world.eggs[j];
            let line = lines::enw(e.id, 0, e.x, e.y);
            let ghost prev = texts(ls@);
            ls.push(line);
            assert(texts(ls@) =~= prev.push(line@));
            assert(egg_lines(self.world.eggs@.take(j + 1)) =~= egg_lines(self.world.eggs@.take(j as int)).push(line@));
            j = j + 1;
        }
        assert(self.world.eggs@.take(self.world.eggs@.len() as int) =~= self.world.eggs@);
        assert(texts(ls@) =~= welcome_lines(self.world, self.config, now as nat));
        let mut out: Vec<Action> = Vec::new();
        send_all(client_id, &ls, &mut out);
        let mut m = numbered("Graphic client connected (ID: ", client_id as u128);
        m.append(")");
        let ghost before = actions(out@);
        out.push(Action::Event(ServerEvent::Log(m)));
        assert(actions(out@) =~= before.push(log(
            "Graphic client connected (ID: "@ + dec(client_id as nat) + ")"@,
        )));
        assert(actions(out@) =~= sends(client_id, welcome_lines(old_self.world, old_self.config, now as nat))
            + seq![log("Graphic client connected (ID: "@ + dec(client_id as nat) + ")"@)]);
        out
    }

    /// `new` and `res` are what the request of client number `k` to play for
    /// `team` at `now` makes of `old` (a free slot places the player at
    /// `(x, y)`, facing `facing`).
    pub open spec fn joined(
        old: Server,
        new: Server,
        k: usize,
        team: Seq<char>,
        now: u64,
        x: u32,
        y: u32,
        facing: Direction,
        res: Seq<ActionModel>,
    ) -> bool {
        &&& new.config == old.config
        &&& ({
            let w = old.world;
            let c = old.client_states@[k as int].0;
            let pid = w.next_player_id;
            if pid < usize::MAX && (w.joins_on_egg(team) || w.joins_on_slot(team)) {
                &&& join_world(new.world, w, team, now as nat, x, y, facing, pid)
                &&& new.client_states@ == old.client_states@.update(
                    k as int,
                    (c, ClientState::InGame(pid)),
                )
                &&& res == seq![
                    send(
                        c,
                        join_reply_line(
                            slots_of(new.world.team_slots@, team) + eggs_of(
                                new.world.eggs@,
                                team,
                            ),
                            w.width as nat,
                            w.height as nat,
                        ),
                    ),
                    log("Player "@ + dec(pid as nat) + " joined team '"@ + team + "'"@),
                    event(EventModel::PlayerJoinedTeam(team)),
                ]
            } else {
                &&& new.world == w
                &&& new.client_states@ == old.client_states@
                &&& res == seq![send(c, "ko\n"@)]
            }
        })
    }

    /// Client number `k` asked at `now` to play for team `team`. The player
    /// hatches from the team's first egg, or takes a free slot at `(x, y)`;
    /// it faces `facing`. The client learns how many connections its team
    /// still has and the map size; the graphical clients learn of the new
    /// player. With neither egg nor free slot (or no player id left), the
    /// answer is `ko` and nothing changes.
    pub fn join(&mut self, k: usize, team: &str, now: u64, x: u32, y: u32, facing: Direction) -> (res:
        Vec<Action>)
        requires
            old(self).wf(),
            k < old(self).client_states@.len(),
            x < old(self).world.width,
            y < old(self).world.height,
        ensures
            final(self).wf(),
            Server::joined(*old(self), *final(self), k, team@, now, x, y, facing, actions(res@)),
    {
        let ghost old_self = *self;
        let c = self.client_states[k].0;
        let mut out: Vec<Action> = Vec::new();
        if self.world.next_player_id == usize::MAX {
            out.push(Action::Send(c, lines::fixed("ko\n")));
            assert(actions(out@) =~= seq![send(c, "ko\n"@)]);
            return out;
        }
        let freq = self.config.freq;
        match self.world.add_player_at(team, freq, now, x, y, facing) {
            Some(pid) => {
                let ghost mid = self.world;
                self.client_states.set(k, (c, ClientState::InGame(pid)));
                let slots = match self.world.team_slots_of(team) {
                    Some(n) => n,
                    None => 0,
                };
                let t = team.to_owned();
                let eggs = self.world.count_eggs(&t);
                out.push(Action::Send(c, lines::join_reply(slots as u128 + eggs as u128, self.config.width, self.config.height)));
                let i = self.world.players.len() - 1;
                let p = &self.world.players[i];
                let a = lines::pnw(p.id, p.x, p.y, p.direction.orientation(), p.level, p.team.as_str());
                let cc = shown(p, freq, now);
                let b = lines::pin(p.id, p.x, p.y, &cc);
                proof {
                    assert(*p == mid.players@.last());
                    assert(seq![mid.players@.last()].drop_last() =~= Seq::<Player>::empty());
                    assert(player_lines(Seq::<Player>::empty(), freq as nat, now as nat) == Seq::<Seq<char>>::empty());
                    assert(arrival_lines(mid.players@.last(), freq as nat, now as nat) =~= seq![a@, b@]);
                }
                self.world.gui_events.push_back(a);
                self.world.gui_events.push_back(b);
                assert(self.world.events() =~= mid.events() + arrival_lines(mid.players@.last(), freq as nat, now as nat));
                assert(self.world == (World { gui_events: self.world.gui_events, ..mid }));
                assert(join_world(self.world, old_self.world, team@, now as nat, x, y, facing, pid));
                let mut m = numbered("Player ", pid as u128);
                m.append(" joined team '");
                m.append(team);
                m.append("'");
                out.push(Action::Event(ServerEvent::Log(m)));
                out.push(Action::Event(ServerEvent::PlayerJoinedTeam(team.to_owned())));
                proof {
                    assert forall|q: usize| #[trigger]
                        has_player(old_self.world.players@, q) implies has_player(self.world.players@, q) by {
                        let j = choose|j: int| 0 <= j < old_self.world.players@.len() && #[trigger] old_self.world.players@[j].id == q;
                        assert(self.world.players@[j] == old_self.world.players@[j]);
                    }
                    let n = self.world.players@.len() - 1;
                    assert(self.world.players@[n].id == pid);
                    assert forall|i2: int|
                        0 <= i2 < old_self.client_states@.len() && i2 != k implies #[trigger] player_of(
                        old_self.client_states@[i2].1) != Some(pid) by {
                        if let Some(q) = player_of(old_self.client_states@[i2].1) {
                            let j = choose|j: int| 0 <= j < old_self.world.players@.len() && #[trigger] old_self.world.players@[j].id == q;
                            assert(old_self.world.players@[j].id < old_self.world.next_player_id);
                        }
                    }
                    assert forall|j: int| 0 <= j < self.world.players@.len() implies queue_ordered(
                        #[trigger] self.world.players@[j],
                    ) by {
                        if j < n {
                            assert(self.world.players@[j] == old_self.world.players@[j]);
                            assert(queue_ordered(old_self.world.players@[j]));
                        }
                    }
                    lemma_wf_update(old_self, *self, k as int, ClientState::InGame(pid));
                }
                assert(actions(out@) =~= seq![
                    send(
                        c,
                        join_reply_line(
                            slots_of(self.world.team_slots@, team@) + eggs_of(self.world.eggs@, team@),
                            old_self.world.width as nat,
                            old_self.world.height as nat,
                        ),
                    ),
                    log("Player "@ + dec(pid as nat) + " joined team '"@ + team@ + "'"@),
                    event(EventModel::PlayerJoinedTeam(team@)),
                ]);
            },
            None => {
                out.push(Action::Send(c, lines::fixed("ko\n")));
                assert(actions(out@) =~= seq![send(c, "ko\n"@)]);
            },
        }
        out
    }

    /// `new` and `res` are what line `msg` of client number `k`, which
    /// controls player `pid`, makes of `old` at `now`.
    pub open spec fn commanded(
        old: Server,
        new: Server,
        k: usize,
        pid: usize,
        msg: Seq<char>,
        now: u64,
        res: Seq<ActionModel>,
    ) -> bool {
        &&& new.config == old.config
        &&& new.client_states@ == old.client_states@
        &&& ({
            let c = old.client_states@[k as int].0;
            match command_of(msg) {
                None => {
                    &&& new.world == old.world
                    &&& res == seq![send(c, "ko\n"@)]
                },
                Some(m) => exists|mid: World, r: Option<Seq<char>>|
                    {
                        &&& init_effect(m, pid, old.world, mid, r)
                        &&& queue_in(new.world, mid, pid, m, now as nat)
                        &&& res == match r {
                            Some(t) => seq![send(c, t)],
                            None => Seq::empty(),
                        }
                    },
            }
        })
    }

    /// Client number `k`, which controls player `pid`, sent line `msg` at
    /// `now`. A command is started (its immediate part may answer at once)
    /// and queued, unless ten are already waiting; a line that is no
    /// command is answered `ko`.
    pub fn queue_command(&mut self, k: usize, pid: usize, msg: &str, now: u64) -> (res: Vec<Action>)
        requires
            old(self).wf(),
            k < old(self).client_states@.len(),
            old(self).client_states@[k as int].1 == ClientState::InGame(pid),
        ensures
            final(self).wf(),
            Server::commanded(*old(self), *final(self), k, pid, msg@, now, actions(res@)),
    {
        let ghost old_self = *self;
        let c = self.client_states[k].0;
        let mut out: Vec<Action> = Vec::new();
        match Command::from_str(msg) {
            None => {
                out.push(Action::Send(c, lines::fixed("ko\n")));
                assert(actions(out@) =~= seq![send(c, "ko\n"@)]);
            },
            Some(cmd) => {
                let r = game_commands::init(&cmd, pid, &mut self.world);
                let ghost mid = self.world;
                let ghost rm = match &r {
                    Some(t) => Some(t@),
                    None => None,
                };
                match r {
                    Some(t) => {
                        out.push(Action::Send(c, t));
                    },
                    None => {},
                }
                assert(actions(out@) =~= match rm {
                    Some(t) => seq![send(c, t)],
                    None => Seq::<ActionModel>::empty(),
                });
                proof {
                    lemma_roster_keeps(old_self.world, mid);
                }
                match self.world.find_player(pid) {
                    Some(i) => {
                        if self.world.players[i].commands.len() < MAX_QUEUED {
                            let dur = time_units_to_nanos(cmd.duration() as u64, self.config.freq);
                            let last = self.world.players[i].last_command_end;
                            let start = if last >= now {
                                last
                            } else {
                                now
                            };
                            let end = start.saturating_add(dur);
                            let ghost p = mid.players@[i as int];
                            self.world.players[i].commands.push_back(PendingCommand { command: cmd, end_time: end });
                            self.world.players[i].last_command_end = end;
                            proof {
                                let q = self.world.players@[i as int];
                                assert(self.world.players@ =~= mid.players@.update(i as int, q));
                                assert(q.commands@.drop_last() =~= p.commands@);
                                crate::game::world::lemma_same_shape_update(mid, self.world, i as int, q);
                                lemma_roster_keeps(mid, self.world);
                            }
                        }
                    },
                    None => {},
                }
                proof {
                    lemma_wf_world(old_self, *self);
                }
            },
        }
        out
    }

    /// `new` and `res` are what line `msg` of graphical client number `k`
    /// makes of `old` at `now`.
    pub open spec fn requested(
        old: Server,
        new: Server,
        k: usize,
        msg: Seq<char>,
        now: u64,
        res: Seq<ActionModel>,
    ) -> bool {
        &&& new.client_states@ == old.client_states@
        &&& ({
            let c = old.client_states@[k as int].0;
            match gui_command_of(msg) {
                None => {
                    &&& new.world == old.world
                    &&& new.config == old.config
                    &&& res == seq![send(c, "suc\n"@)]
                },
                Some(g) => exists|r: Seq<Seq<char>>|
                    {
                        &&& gui_effect(
                            g,
                            old.world,
                            new.world,
                            old.config,
                            new.config,
                            now,
                            r,
                        )
                        &&& res == (if g is TimeUpdate {
                            seq![
                                log("GUI modified frequency to "@ + dec(new.config.freq as nat)),
                                event(EventModel::FreqChanged(new.config.freq)),
                            ]
                        } else {
                            Seq::empty()
                        }) + sends(c, r)
                    },
            }
        })
    }

    /// Graphical client number `k` sent line `msg` at `now`: a request is
    /// answered (a change of frequency is also reported to the dashboard);
    /// a line that is no request is answered `suc`.
    pub fn gui_request(&mut self, k: usize, msg: &str, now: u64) -> (res: Vec<Action>)
        requires
            old(self).wf(),
            k < old(self).client_states@.len(),
        ensures
            final(self).wf(),
            Server::requested(*old(self), *final(self), k, msg@, now, actions(res@)),
    {
        let ghost old_self = *self;
        let c = self.client_states[k].0;
        let mut out: Vec<Action> = Vec::new();
        match GuiCommand::from_str(msg) {
            None => {
                out.push(Action::Send(c, lines::fixed("suc\n")));
                assert(actions(out@) =~= seq![send(c, "suc\n"@)]);
            },
            Some(g) => {
                let responses = crate::gui::commands::execute_at(g, &mut self.world, &mut self.config, now);
                if let GuiCommand::TimeUpdate(_) = g {
                    let freq = self.config.freq;
                    out.push(Action::Event(ServerEvent::Log(numbered("GUI modified frequency to ", freq as u128))));
                    out.push(Action::Event(ServerEvent::FreqChanged(freq)));
                }
                let ghost head = actions(out@);
                assert(head =~= (if g is TimeUpdate {
                    seq![
                        log("GUI modified frequency to "@ + dec(self.config.freq as nat)),
                        event(EventModel::FreqChanged(self.config.freq)),
                    ]
                } else {
                    Seq::empty()
                }));
                send_all(c, &responses, &mut out);
                proof {
                    lemma_roster_keeps(old_self.world, self.world);
                    if crate::gui::commands::time::changes_freq(g, old_self.config) {
                        let f = self.config.freq;
                        assert forall|j: int| 0 <= j < self.world.players@.len() implies queue_ordered(
                            #[trigger] self.world.players@[j],
                        ) by {
                            assert(queue_ordered(old_self.world.players@[j]));
                            lemma_rescale_ordered(
                                old_self.world.players@[j],
                                self.world.players@[j],
                                now,
                                old_self.config.freq,
                                f,
                            );
                        }
                    }
                    lemma_wf_world(old_self, *self);
                }
            },
        }
        out
    }

    /// `new` and `res` are what line `msg` of client `client_id` makes of
    /// `old` at `now`: an unknown client is ignored; an authenticating one
    /// becomes a graphical client with `GRAPHIC`, or else asks to play for
    /// the team `msg` (a free slot places it at `(x, y)`, facing `facing`);
    /// a player's line is a command; a graphical client's line a request.
    pub open spec fn handled(
        old: Server,
        new: Server,
        client_id: usize,
        msg: Seq<char>,
        now: u64,
        x: u32,
        y: u32,
        facing: Direction,
        res: Seq<ActionModel>,
    ) -> bool {
        let cs = old.client_states@;
        if has_client(cs, client_id) {
            let k = client_index(cs, client_id);
            match cs[k].1 {
                ClientState::Authenticating => if msg == "GRAPHIC"@ {
                    Server::welcomed(old, new, k as usize, now, res)
                } else {
                    Server::joined(old, new, k as usize, msg, now, x, y, facing, res)
                },
                ClientState::InGame(pid) => Server::commanded(old, new, k as usize, pid, msg, now, res),
                ClientState::Graphic => Server::requested(old, new, k as usize, msg, now, res),
            }
        } else {
            &&& new == old
            &&& res == Seq::<ActionModel>::empty()
        }
    }

    /// Handles line `msg` of client `client_id` at `now` (see
    /// [`Server::handled`]); a player joining on a free slot appears at
    /// `(x, y)`, facing `facing`.
    pub fn handle_message_at(
        &mut self,
        client_id: usize,
        msg: &str,
        now: u64,
        x: u32,
        y: u32,
        facing: Direction,
    ) -> (res: Vec<Action>)
        requires
            old(self).wf(),
            x < old(self).world.width,
            y < old(self).world.height,
        ensures
            final(self).wf(),
            Server::handled(*old(self), *final(self), client_id, msg@, now, x, y, facing, actions(res@)),
    {
        match self.find_client(client_id) {
            None => {
                let out: Vec<Action> = Vec::new();
                assert(actions(out@) =~= Seq::<ActionModel>::empty());
                out
            },
            Some(k) => {
                match self.client_states[k].1 {
                    ClientState::Authenticating => {
                        let cs = crate::text::chars_of(msg);
                        if crate::text::chars_eq_str(&cs, "GRAPHIC") {
                            self.welcome_graphic(k, now)
                        } else {
                            self.join(k, msg, now, x, y, facing)
                        }
                    },
                    ClientState::InGame(pid) => self.queue_command(k, pid, msg, now),
                    ClientState::Graphic => self.gui_request(k, msg, now),
                }
            },
        }
    }

    /// A client sent a complete line: it is handled at the current time,
    /// and a player joining on a free slot appears at a random position,
    /// facing a random direction (see [`Server::handled`]).
    pub fn on_message_received(&mut self, client_id: usize, msg: String) -> (res: Vec<Action>)
        requires
            old(self).wf(),
        ensures
            final(self).wf(),
            exists|now: u64, x: u32, y: u32, facing: Direction|
                Server::handled(*old(self), *final(self), client_id, msg@, now, x, y, facing, actions(res@)),
    {
        let now = now_nanos();
        let x = random_below(self.world.width);
        let y = random_below(self.world.height);
        let facing = Direction::from_index(random_below(4));
        self.handle_message_at(client_id, msg.as_str(), now, x, y, facing)
    }

    /// Tops up the resources at `now` if their time has come (see
    /// [`respawned`]).
    pub fn respawn(&mut self, now: u64)
        requires
            old(self).wf(),
        ensures
            final(self).wf(),
            final(self).config == old(self).config,
            final(self).client_states@ == old(self).client_states@,
            respawned(final(self).world, old(self).world, now),
    {
        let ghost old_self = *self;
        if now >= self.world.next_spawn_time {
            self.world.spawn_resources();
            let interval = time_units_to_nanos(RESPAWN_TIME, self.config.freq);
            self.world.next_spawn_time = now.saturating_add(interval);
            proof {
                lemma_wf_world(old_self, *self);
            }
        }
    }

    /// Surveys the clients at `now`, in order (see [`survey`] and
    /// [`surveyed_world`]): returns the texts to send, the dying players and
    /// the due commands.
    pub fn survey_clients(&mut self, now: u64) -> (res: (
        Vec<Action>,
        Vec<(usize, usize)>,
        Vec<(usize, usize, Command)>,
    ))
        requires
            old(self).wf(),
        ensures
            final(self).wf(),
            final(self).config == old(self).config,
            final(self).client_states@ == old(self).client_states@,
            surveyed_world(final(self).world, old(self).world, old(self).client_states@, now),
            actions(res.0@) == survey(old(self).client_states@, old(self).world, now).sent,
            res.1@ == survey(old(self).client_states@, old(self).world, now).dead,
            due_view(res.2@) == survey(old(self).client_states@, old(self).world, now).due,
            forall|j: int, k: int|
                0 <= j < old(self).world.players@.len() && controlled(
                    old(self).client_states@,
                    old(self).world.players@[j].id,
                ) && now < old(self).world.players@[j].death_time && 0 <= k
                    < final(self).world.players@[j].commands@.len()
                    ==> #[trigger] final(self).world.players@[j].commands@[k].end_time > now,
    {
        let ghost old_self = *self;
        let ghost w0 = self.world;
        let ghost cs = self.client_states@;
        let freq = self.config.freq;
        let mut out: Vec<Action> = Vec::new();
        let mut dead: Vec<(usize, usize)> = Vec::new();
        let mut due: Vec<(usize, usize, Command)> = Vec::new();
        assert(cs.take(0) =~= Seq::<(usize, ClientState)>::empty());
        assert(w0.events() =~= w0.events() + Seq::<Seq<char>>::empty());
        let mut k: usize = 0;
        while k < self.client_states.len()
            invariant
                old_self.wf(),
                w0 == old_self.world,
                cs == old_self.client_states@,
                self.client_states@ == cs,
                self.config == old_self.config,
                freq == w0.freq,
                k <= cs.len(),
                self.world.wf(),
                surveyed_world(self.world, w0, cs.take(k as int), now),
                actions(out@) == survey(cs.take(k as int), w0, now).sent,
                dead@ == survey(cs.take(k as int), w0, now).dead,
                due_view(due@) == survey(cs.take(k as int), w0, now).due,
            decreases cs.len() - k,
        {
            let ghost before = self.world;
            let ghost s0 = survey(cs.take(k as int), w0, now);
            proof {
                assert(cs.take(k + 1).drop_last() =~= cs.take(k as int));
                assert(cs.take(k + 1).last() == cs[k as int]);
                lemma_controlled_step(cs, k as int);
            }
            let (c, st) = self.client_states[k];
            if let ClientState::InGame(pid) = st {
                match self.world.find_player(pid) {
                    Some(i) => {
                        proof {
                            assert(w0.players@[i as int].id == pid);
                            crate::game::world::lemma_player_index(w0.players@, i as int);
                            assert(!controlled(cs.take(k as int), pid)) by {
                                if controlled(cs.take(k as int), pid) {
                                    let m = choose|m: int| 0 <= m < k && #[trigger] player_of(cs.take(k as int)[m].1) == Some(pid);
                                    assert(player_of(cs[m].1) == Some(pid));
                                    assert(player_of(cs[k as int].1) is Some);
                                }
                            }
                            assert(self.world.players@[i as int] == w0.players@[i as int]);
                        }
                        let ghost p0 = w0.players@[i as int];
                        if now >= self.world.players[i].death_time {
                            out.push(Action::Send(c, lines::fixed("dead\n")));
                            dead.push((c, pid));
                            proof {
                                assert(actions(out@) =~= s0.sent + seq![send(c, "dead\n"@)]);
                                assert(dead@ =~= s0.dead + seq![(c, pid)]);
                                assert(due_view(due@) =~= s0.due + Seq::<(usize, usize, CommandModel)>::empty());
                                assert(self.world.events() =~= w0.events() + (s0.events + Seq::<Seq<char>>::empty()));
                            }
                        } else {
                            let food = self.world.players[i].food_count_at(freq, now);
                            let ghost ev0 = self.world.events();
                            let ghost new_events: Seq<Seq<char>> = if food != p0.last_food_count {
                                seq![pin_line(pid as nat, p0.x as nat, p0.y as nat, shown_counts(p0, now as nat, freq as nat))]
                            } else {
                                Seq::empty()
                            };
                            if food != self.world.players[i].last_food_count {
                                let p = &self.world.players[i];
                                let cc = shown(p, freq, now);
                                let line = lines::pin(pid, p.x, p.y, &cc);
                                self.world.gui_events.push_back(line);
                                assert(self.world.events() =~= ev0 + new_events);
                            } else {
                                assert(self.world.events() =~= ev0 + new_events);
                            }
                            self.world.players[i].last_food_count = food;
                            let ghost mid = self.world.players@[i as int];
                            let cmds = take_due(&mut self.world.players[i], now);
                            let ghost dc = due_count(p0.commands@, now);
                            let ghost due0 = due_view(due@);
                            let mut cmds = cmds;
                            let ghost all = cmds@;
                            let ghost t: int = 0;
                            assert(all.skip(0) =~= all);
                            while cmds.len() > 0
                                invariant
                                    0 <= t <= all.len(),
                                    cmds@ == all.skip(t),
                                    due_view(due@) == due0 + all.take(t).map_values(|cm: Command| (c, pid, cm@)),
                                decreases cmds@.len(),
                            {
                                let cm = cmds.remove(0);
                                proof {
                                    assert(cm == all[t]);
                                    assert(all.skip(t).drop_first() =~= all.skip(t + 1));
                                }
                                let ghost prev = due_view(due@);
                                due.push((c, pid, cm));
                                proof {
                                    assert(due_view(due@) =~= prev.push((c, pid, all[t]@)));
                                    assert(all.take(t + 1).map_values(|cm: Command| (c, pid, cm@)) =~= all.take(t).map_values(
                                        |cm: Command| (c, pid, cm@),
                                    ).push((c, pid, all[t]@)));
                                    t = t + 1;
                                }
                            }
                            proof {
                                assert(all.take(t) =~= all);
                                lemma_due_count_bound(p0.commands@, now);
                                let taken = p0.commands@.take(dc as int);
                                assert(all.map_values(|cm: Command| cm@) == taken.map_values(|pc: PendingCommand| pc.command@));
                                assert(taken.len() == dc as int);
                                assert(all.len() == all.map_values(|cm: Command| cm@).len());
                                assert forall|x: int| 0 <= x < all.len() implies #[trigger] all[x]@ == taken[x].command@ by {
                                    assert(all.map_values(|cm: Command| cm@)[x] == all[x]@);
                                    assert(taken.map_values(|pc: PendingCommand| pc.command@)[x] == taken[x].command@);
                                }
                                assert(all.map_values(|cm: Command| (c, pid, cm@)) =~= taken.map_values(
                                    |pc: PendingCommand| (c, pid, pc.command@),
                                ));
                                assert(actions(out@) =~= s0.sent + Seq::<ActionModel>::empty());
                                assert(dead@ =~= s0.dead + Seq::<(usize, usize)>::empty());
                                let q = self.world.players@[i as int];
                                assert(surveyed(q, p0, now, freq as nat));
                                assert(self.world.players@ =~= before.players@.update(i as int, q));
                                let mid_w = World { gui_events: self.world.gui_events, ..before };
                                crate::game::world::lemma_same_shape_update(mid_w, self.world, i as int, q);
                                assert(self.world.events() =~= w0.events() + (s0.events + new_events));
                            }
                        }
                        proof {
                            assert forall|j: int| 0 <= j < w0.players@.len() implies if controlled(
                                cs.take(k + 1),
                                w0.players@[j].id,
                            ) {
                                surveyed(#[trigger] self.world.players@[j], w0.players@[j], now, w0.freq as nat)
                            } else {
                                self.world.players@[j] == w0.players@[j]
                            } by {
                                if j != i {
                                    assert(w0.players@[j].id != pid);
                                    assert(self.world.players@[j] == before.players@[j]);
                                }
                            }
                        }
                    },
                    None => {
                        proof {
                            assert(!has_player(w0.players@, pid)) by {
                                if has_player(w0.players@, pid) {
                                    let j = choose|j: int| 0 <= j < w0.players@.len() && #[trigger] w0.players@[j].id == pid;
                                    assert(self.world.players@[j].id == pid);
                                }
                            }
                            assert forall|j: int| 0 <= j < w0.players@.len() implies if controlled(
                                cs.take(k + 1),
                                w0.players@[j].id,
                            ) {
                                surveyed(#[trigger] self.world.players@[j], w0.players@[j], now, w0.freq as nat)
                            } else {
                                self.world.players@[j] == w0.players@[j]
                            } by {
                                assert(w0.players@[j].id != pid);
                            }
                            assert(actions(out@) =~= s0.sent + Seq::<ActionModel>::empty());
                            assert(dead@ =~= s0.dead + Seq::<(usize, usize)>::empty());
                            assert(due_view(due@) =~= s0.due + Seq::<(usize, usize, CommandModel)>::empty());
                            assert(self.world.events() =~= w0.events() + (s0.events + Seq::<Seq<char>>::empty()));
                        }
                    },
                }
            } else {
                proof {
                    assert(player_of(st) is None);
                    assert forall|j: int| 0 <= j < w0.players@.len() implies if controlled(
                        cs.take(k + 1),
                        w0.players@[j].id,
                    ) {
                        surveyed(#[trigger] self.world.players@[j], w0.players@[j], now, w0.freq as nat)
                    } else {
                        self.world.players@[j] == w0.players@[j]
                    } by {}
                    assert(actions(out@) =~= s0.sent + Seq::<ActionModel>::empty());
                    assert(dead@ =~= s0.dead + Seq::<(usize, usize)>::empty());
                    assert(due_view(due@) =~= s0.due + Seq::<(usize, usize, CommandModel)>::empty());
                    assert(self.world.events() =~= w0.events() + (s0.events + Seq::<Seq<char>>::empty()));
                }
            }
            k = k + 1;
        }
        assert(cs.take(cs.len() as int) =~= cs);
        proof {
            lemma_roster_keeps(w0, self.world);
            assert forall|j: int| 0 <= j < self.world.players@.len() implies queue_ordered(
                #[trigger] self.world.players@[j],
            ) by {
                let p = w0.players@[j];
                assert(queue_ordered(p));
                if controlled(cs, p.id) && now < p.death_time {
                    lemma_due_count_bound(p.commands@, now);
                    lemma_ordered_skip(p, self.world.players@[j], due_count(p.commands@, now) as int);
                }
            }
            assert forall|j: int, k: int|
                0 <= j < w0.players@.len() && controlled(cs, w0.players@[j].id) && now
                    < w0.players@[j].death_time && 0 <= k < self.world.players@[j].commands@.len()
                implies #[trigger] self.world.players@[j].commands@[k].end_time > now by {
                let p = w0.players@[j];
                let n = due_count(p.commands@, now) as int;
                lemma_due_count_bound(p.commands@, now);
                assert(queue_ordered(p));
                lemma_rest_not_due(p.commands@, now);
                assert(self.world.players@[j].commands@[k] == p.commands@[k + n]);
            }
            lemma_wf_world(old_self, *self);
        }
        (out, dead, due)
    }

    /// Runs the due commands at `now`, in order, each for its player, and
    /// sends each answer to its client.
    pub fn run_due(&mut self, due: Vec<(usize, usize, Command)>, now: u64) -> (res: Vec<Action>)
        requires
            old(self).wf(),
            forall|i: int| 0 <= i < due@.len() ==> has_player(old(self).world.players@, #[trigger] due@[i].1),
        ensures
            final(self).wf(),
            final(self).config == old(self).config,
            final(self).client_states@ == old(self).client_states@,
            final(self).world.same_roster(old(self).world),
            final(self).world.same_queues(old(self).world),
            exists|ws: Seq<World>, rs: Seq<Seq<char>>|
                {
                    &&& ran(due_view(due@), ws, rs, now)
                    &&& ws[0] == old(self).world
                    &&& ws.last() == final(self).world
                    &&& actions(res@) == answers(due_view(due@), rs)
                },
    {
        let ghost old_self = *self;
        let ghost all = due@;
        let ghost dv = due_view(all);
        let mut due = due;
        let mut out: Vec<Action> = Vec::new();
        let ghost mut ws: Seq<World> = seq![self.world];
        let ghost mut rs: Seq<Seq<char>> = Seq::empty();
        let ghost mut t: int = 0;
        assert(all.skip(0) =~= all);
        assert(ran(dv.take(0), ws, rs, now));
        while due.len() > 0
            invariant
                old_self.wf(),
                dv == due_view(all),
                0 <= t <= all.len(),
                due@ == all.skip(t),
                forall|i: int| 0 <= i < all.len() ==> has_player(old_self.world.players@, #[trigger] all[i].1),
                self.world.wf(),
                consistent(self.world, self.config),
                self.config == old_self.config,
                self.client_states@ == old_self.client_states@,
                self.world.width == old_self.world.width,
                self.world.height == old_self.world.height,
                self.world.same_roster(old_self.world),
                self.world.same_queues(old_self.world),
                ran(dv.take(t), ws, rs, now),
                ws[0] == old_self.world,
                ws.last() == self.world,
                actions(out@) == answers(dv.take(t), rs),
            decreases due@.len(),
        {
            let (c, pid, cmd) = due.remove(0);
            proof {
                assert((c, pid, cmd) == all[t]);
                assert(all.skip(t).drop_first() =~= all.skip(t + 1));
                assert(has_player(old_self.world.players@, pid));
                lemma_roster_keeps(old_self.world, self.world);
            }
            let ghost before = self.world;
            let r = game_commands::execute_at(cmd, pid, &mut self.world, now);
            let ghost prev = actions(out@);
            out.push(Action::Send(c, r));
            proof {
                assert(self.world.same_roster(old_self.world)) by {
                    assert forall|j: int| 0 <= j < self.world.players@.len() implies (#[trigger] self.world.players@[j]).id == old_self.world.players@[j].id by {
                        assert(self.world.players@[j].id == before.players@[j].id);
                    }
                }
                let ws2 = ws.push(self.world);
                let rs2 = rs.push(r@);
                assert(dv.take(t + 1) =~= dv.take(t).push(dv[t]));
                assert(dv[t] == (c, pid, cmd@));
                assert forall|i: int| 0 <= i < t + 1 implies #[trigger] execute_effect(
                    dv.take(t + 1)[i].2,
                    dv.take(t + 1)[i].1,
                    ws2[i],
                    ws2[i + 1],
                    now as nat,
                    rs2[i],
                ) by {
                    if i < t {
                        assert(dv.take(t + 1)[i] == dv.take(t)[i]);
                        assert(execute_effect(dv.take(t)[i].2, dv.take(t)[i].1, ws[i], ws[i + 1], now as nat, rs[i]));
                    }
                }
                assert(actions(out@) =~= prev.push(send(c, r@)));
                assert forall|i: int| 0 <= i < t + 1 implies #[trigger] answers(dv.take(t + 1), rs2)[i] == actions(out@)[i] by {
                    if i < t {
                        assert(answers(dv.take(t), rs)[i] == prev[i]);
                        assert(dv.take(t + 1)[i] == dv.take(t)[i]);
                    }
                }
                assert(actions(out@) =~= answers(dv.take(t + 1), rs2));
                ws = ws2;
                rs = rs2;
                t = t + 1;
            }
        }
        proof {
            assert(dv.take(t) =~= dv);
            lemma_roster_keeps(old_self.world, self.world);
            lemma_ordered_same_queues(old_self.world, self.world);
            lemma_wf_world(old_self, *self);
        }
        out
    }

    /// The players `dead` starved: one after the other, each is announced
    /// with `pdi`, reported, removed from the world, and its client is
    /// disconnected (see [`buried_one`]).
    pub fn bury(&mut self, dead: Vec<(usize, usize)>) -> (res: Vec<Action>)
        requires
            old(self).wf(),
        ensures
            final(self).wf(),
            exists|ss: Seq<Server>, outs: Seq<Seq<ActionModel>>|
                {
                    &&& buried(dead@, ss, outs)
                    &&& ss[0] == *old(self)
                    &&& ss.last() == *final(self)
                    &&& actions(res@) == outs.flatten()
                },
            players_kept(final(self).world, old(self).world),
            clients_kept(final(self).client_states@, old(self).client_states@),
            forall|i: int|
                0 <= i < dead@.len() && state_of(old(self).client_states@, dead@[i].0) == Some(
                    ClientState::InGame(dead@[i].1),
                ) ==> !has_player(final(self).world.players@, #[trigger] dead@[i].1),
    {
        let ghost o = *self;
        let ghost all = dead@;
        proof {
            assert forall|j: int| 0 <= j < o.world.players@.len() implies o.world.players@.contains(
                #[trigger] o.world.players@[j],
            ) by {
                assert(o.world.players@[j] == o.world.players@[j]);
            }
        }
        let mut dead = dead;
        let mut out: Vec<Action> = Vec::new();
        let ghost mut ss: Seq<Server> = seq![*self];
        let ghost mut outs: Seq<Seq<ActionModel>> = Seq::empty();
        let ghost mut t: int = 0;
        assert(all.skip(0) =~= all);
        assert(outs.flatten() =~= Seq::<ActionModel>::empty());
        while dead.len() > 0
            invariant
                0 <= t <= all.len(),
                dead@ == all.skip(t),
                self.wf(),
                buried(all.take(t), ss, outs),
                ss[0] == *old(self),
                ss.last() == *self,
                actions(out@) == outs.flatten(),
                o == *old(self),
                players_kept(self.world, o.world),
                clients_kept(self.client_states@, o.client_states@),
                gone_unplayed(self.client_states@, o.client_states@, self.world),
                forall|i: int|
                    0 <= i < t && state_of(o.client_states@, all[i].0) == Some(ClientState::InGame(all[i].1))
                        ==> !has_player(self.world.players@, #[trigger] all[i].1),
            decreases dead@.len(),
        {
            let (c, pid) = dead.remove(0);
            proof {
                assert((c, pid) == all[t]);
                assert(all.skip(t).drop_first() =~= all.skip(t + 1));
            }
            let ghost s0 = *self;
            let mut step: Vec<Action> = Vec::new();
            if let Some(k) = self.find_client(c) {
                if self.client_states[k].1 == ClientState::InGame(pid) {
                    let line = lines::tagged("pdi", pid as u64);
                    self.broadcast_gui(line.as_str(), &mut step);
                    let team = match self.world.find_player(pid) {
                        Some(i) => self.world.players[i].team.clone(),
                        None => String::new(),
                    };
                    assert(team@ == team_of(s0.world, pid));
                    let mut m = numbered("Player ", pid as u128);
                    m.append(" (Team: ");
                    m.append(team.as_str());
                    m.append(") starved to death.");
                    step.push(Action::Event(ServerEvent::Log(m)));
                    step.push(Action::Event(ServerEvent::PlayerDied(team)));
                    self.world.remove_player(pid);
                    step.push(Action::Disconnect(c));
                    self.client_states.remove(k);
                    step.push(Action::Event(ServerEvent::ClientDisconnected));
                    proof {
                        assert(self.client_states@ =~= s0.client_states@.remove(k as int));
                        lemma_wf_remove(s0, *self, k as int, pid);
                        lemma_removed_kept(s0.world, self.world, pid);
                        lemma_client_index(s0.client_states@, k as int);
                        assert(state_of(s0.client_states@, c) == Some(ClientState::InGame(pid)));
                        assert forall|j: int| 0 <= j < self.world.players@.len() implies o.world.players@.contains(
                            #[trigger] self.world.players@[j],
                        ) by {
                            assert(s0.world.players@.contains(self.world.players@[j]));
                            let j1 = choose|j1: int| 0 <= j1 < s0.world.players@.len() && s0.world.players@[j1] == self.world.players@[j];
                            assert(o.world.players@.contains(s0.world.players@[j1]));
                        }
                        assert forall|c2: usize| #[trigger] has_client(self.client_states@, c2) implies has_client(o.client_states@, c2)
                            && state_of(self.client_states@, c2) == state_of(o.client_states@, c2) by {
                            if c2 == c {
                                lemma_remove_client(s0.client_states@, k as int);
                                let m = choose|m: int| 0 <= m < self.client_states@.len() && #[trigger] self.client_states@[m].0 == c2;
                                let m0 = if m < k { m } else { m + 1 };
                                assert(self.client_states@[m] == s0.client_states@[m0]);
                                assert(s0.client_states@[m0].0 != s0.client_states@[k as int].0);
                            } else {
                                lemma_state_after_remove(s0.client_states@, k as int, c2);
                                assert(has_client(s0.client_states@, c2));
                            }
                        }
                        assert forall|c2: usize|
                            has_client(o.client_states@, c2) && !has_client(self.client_states@, c2) implies match #[trigger] state_of(o.client_states@, c2) {
                            Some(ClientState::InGame(q)) => !has_player(self.world.players@, q),
                            _ => true,
                        } by {
                            if c2 == c {
                                assert(state_of(o.client_states@, c2) == Some(ClientState::InGame(pid)));
                            } else {
                                lemma_state_after_remove(s0.client_states@, k as int, c2);
                                assert(!has_client(s0.client_states@, c2));
                                assert(state_of(o.client_states@, c2) == state_of(o.client_states@, c2));
                            }
                        }
                        assert(actions(step@) =~= broadcast(s0.client_states@, lines::tagged_line("pdi"@, pid as nat))
                            + seq![
                            log("Player "@ + dec(pid as nat) + " (Team: "@ + team_of(s0.world, pid) + ") starved to death."@),
                            event(EventModel::PlayerDied(team_of(s0.world, pid))),
                            ActionModel::Disconnect(c),
                            event(EventModel::ClientDisconnected),
                        ]);
                    }
                }
            }
            proof {
                if !(state_of(s0.client_states@, c) == Some(ClientState::InGame(pid))) {
                    assert(actions(step@) =~= Seq::<ActionModel>::empty());
                    if state_of(o.client_states@, c) == Some(ClientState::InGame(pid)) {
                        if has_client(s0.client_states@, c) {
                            assert(clients_kept(s0.client_states@, o.client_states@));
                        }
                        assert(has_client(o.client_states@, c));
                    }
                }
                assert(buried_one(s0, *self, c, pid, actions(step@)));
                assert forall|i: int|
                    0 <= i < t + 1 && state_of(o.client_states@, all[i].0) == Some(ClientState::InGame(all[i].1))
                        implies !has_player(self.world.players@, #[trigger] all[i].1) by {
                    if i < t {
                        assert(!has_player(s0.world.players@, all[i].1));
                    }
                }
            }
            let ghost step_view = actions(step@);
            let ghost prev = actions(out@);
            out.append(&mut step);
            proof {
                assert(actions(out@) =~= prev + step_view);
                outs.lemma_flatten_push(step_view);
                let ss2 = ss.push(*self);
                let outs2 = outs.push(step_view);
                assert(all.take(t + 1) =~= all.take(t).push(all[t]));
                assert forall|i: int| 0 <= i < t + 1 implies #[trigger] buried_one(
                    ss2[i],
                    ss2[i + 1],
                    all.take(t + 1)[i].0,
                    all.take(t + 1)[i].1,
                    outs2[i],
                ) by {
                    if i < t {
                        assert(all.take(t + 1)[i] == all.take(t)[i]);
                        assert(buried_one(ss[i], ss[i + 1], all.take(t)[i].0, all.take(t)[i].1, outs[i]));
                    }
                }
                ss = ss2;
                outs = outs2;
                t = t + 1;
            }
        }
        assert(all.take(t) =~= all);
        out
    }

    /// Removes the eggs whose time is up at `now` and announces each with
    /// `edi`.
    pub fn expire_eggs(&mut self, now: u64) -> (res: Vec<Action>)
        requires
            old(self).wf(),
        ensures
            final(self).wf(),
            final(self).config == old(self).config,
            final(self).client_states@ == old(self).client_states@,
            final(self).world == (World { eggs: final(self).world.eggs, ..old(self).world }),
            final(self).world.eggs@ == live_eggs(old(self).world.eggs@, now),
            actions(res@) == broadcasts(old(self).client_states@, expired_lines(old(self).world.eggs@, now)),
    {
        let ghost old_self = *self;
        let ghost es = self.world.eggs@;
        let mut pending: Vec<Egg> = Vec::new();
        std::mem::swap(&mut pending, &mut self.world.eggs);
        let mut kept: Vec<Egg> = Vec::new();
        let mut gone: Vec<String> = Vec::new();
        let ghost mut t: int = 0;
        assert(es.skip(0) =~= es);
        assert(es.take(0) =~= Seq::<Egg>::empty());
        while pending.len() > 0
            invariant
                0 <= t <= es.len(),
                es == old_self.world.eggs@,
                old_self.wf(),
                pending@ == es.skip(t),
                kept@ == live_eggs(es.take(t), now),
                texts(gone@) == expired_lines(es.take(t), now),
                forall|i: int|
                    0 <= i < kept@.len() ==> (#[trigger] kept@[i]).x < old_self.world.width && kept@[i].y
                        < old_self.world.height,
            decreases pending@.len(),
        {
            let e = pending.remove(0);
            proof {
                assert(e == es[t]);
                assert(es.skip(t).drop_first() =~= es.skip(t + 1));
                assert(es.take(t + 1).drop_last() =~= es.take(t));
                assert(es.take(t + 1).last() == es[t]);
            }
            if now >= e.death_time {
                let line = lines::tagged("edi", e.id as u64);
                let ghost prev = texts(gone@);
                gone.push(line);
                assert(texts(gone@) =~= prev.push(line@));
                assert(kept@ =~= live_eggs(es.take(t), now) + Seq::<Egg>::empty());
            } else {
                let ghost prev = texts(gone@);
                kept.push(e);
                assert(texts(gone@) =~= prev + Seq::<Seq<char>>::empty());
            }
            proof {
                t = t + 1;
            }
        }
        assert(es.take(t) =~= es);
        self.world.eggs = kept;
        proof {
            lemma_wf_world(old_self, *self);
        }
        let mut out: Vec<Action> = Vec::new();
        let ghost msgs = texts(gone@);
        let mut i: usize = 0;
        assert(msgs.take(0) =~= Seq::<Seq<char>>::empty());
        while i < gone.len()
            invariant
                msgs == texts(gone@),
                i <= gone@.len(),
                self.client_states@ == old_self.client_states@,
                actions(out@) == broadcasts(old_self.client_states@, msgs.take(i as int)),
            decreases gone.len() - i,
        {
            proof {
                assert(msgs.take(i + 1).drop_last() =~= msgs.take(i as int));
                assert(msgs.take(i + 1).last() == gone@[i as int]@);
            }
            self.broadcast_gui(gone[i].as_str(), &mut out);
            i = i + 1;
        }
        assert(msgs.take(gone@.len() as int) =~= msgs);
        out
    }

    /// Sends every queued world event to every graphical client, in order,
    /// and empties the queue.
    pub fn broadcast_events(&mut self) -> (res: Vec<Action>)
        requires
            old(self).wf(),
        ensures
            final(self).wf(),
            final(self).config == old(self).config,
            final(self).client_states@ == old(self).client_states@,
            final(self).world == (World { gui_events: final(self).world.gui_events, ..old(self).world }),
            final(self).world.gui_events@.len() == 0,
            actions(res@) == broadcasts(old(self).client_states@, old(self).world.events()),
    {
        let ghost old_self = *self;
        let ghost evs = self.world.events();
        let mut out: Vec<Action> = Vec::new();
        let ghost mut t: int = 0;
        assert(evs.skip(0) =~= evs);
        assert(evs.take(0) =~= Seq::<Seq<char>>::empty());
        while self.world.gui_events.len() > 0
            invariant
                0 <= t <= evs.len(),
                evs == old_self.world.events(),
                self.world == (World { gui_events: self.world.gui_events, ..old_self.world }),
                self.world.events() == evs.skip(t),
                self.client_states@ == old_self.client_states@,
                self.config == old_self.config,
                actions(out@) == broadcasts(old_self.client_states@, evs.take(t)),
            decreases self.world.gui_events@.len(),
        {
            let ghost q = self.world.gui_events@;
            proof {
                assert(q.map_values(|x: String| x@) == evs.skip(t));
                assert(q.map_values(|x: String| x@)[0] == q[0]@);
                assert(evs.skip(t)[0] == evs[t]);
            }
            let m = self.world.gui_events.pop_front().unwrap();
            proof {
                assert(m == q[0]);
                assert(self.world.gui_events@ =~= q.drop_first());
                assert(self.world.events() =~= q.map_values(|x: String| x@).drop_first());
                assert(evs.skip(t).drop_first() =~= evs.skip(t + 1));
                assert(m@ == evs[t]);
                assert(self.world.events() =~= evs.skip(t + 1));
                assert(evs.take(t + 1).drop_last() =~= evs.take(t));
                assert(evs.take(t + 1).last() == evs[t]);
            }
            self.broadcast_gui(m.as_str(), &mut out);
            proof {
                t = t + 1;
            }
        }
        assert(evs.take(t) =~= evs);
        proof {
            lemma_wf_world(old_self, *self);
        }
        out
    }

    /// Delivers the waiting messages of every player to its client, client
    /// by client.
    pub fn flush_notifications(&mut self) -> (res: Vec<Action>)
        requires
            old(self).wf(),
        ensures
            final(self).wf(),
            final(self).config == old(self).config,
            final(self).client_states@ == old(self).client_states@,
            notified_world(final(self).world, old(self).world, old(self).client_states@),
            actions(res@) == notices(old(self).client_states@, old(self).world),
    {
        let ghost old_self = *self;
        let ghost w0 = self.world;
        let ghost cs = self.client_states@;
        let mut out: Vec<Action> = Vec::new();
        assert(cs.take(0) =~= Seq::<(usize, ClientState)>::empty());
        let mut k: usize = 0;
        while k < self.client_states.len()
            invariant
                old_self.wf(),
                w0 == old_self.world,
                cs == old_self.client_states@,
                self.client_states@ == cs,
                self.config == old_self.config,
                k <= cs.len(),
                self.world.wf(),
                notified_world(self.world, w0, cs.take(k as int)),
                actions(out@) == notices(cs.take(k as int), w0),
            decreases cs.len() - k,
        {
            let ghost before = self.world;
            let ghost n0 = actions(out@);
            proof {
                assert(cs.take(k + 1).drop_last() =~= cs.take(k as int));
                assert(cs.take(k + 1).last() == cs[k as int]);
                lemma_controlled_step(cs, k as int);
            }
            let (c, st) = self.client_states[k];
            if let ClientState::InGame(pid) = st {
                match self.world.find_player(pid) {
                    Some(i) => {
                        proof {
                            assert(w0.players@[i as int].id == pid);
                            crate::game::world::lemma_player_index(w0.players@, i as int);
                            assert(!controlled(cs.take(k as int), pid)) by {
                                if controlled(cs.take(k as int), pid) {
                                    let m = choose|m: int| 0 <= m < k && #[trigger] player_of(cs.take(k as int)[m].1) == Some(pid);
                                    assert(player_of(cs[m].1) == Some(pid));
                                    assert(player_of(cs[k as int].1) is Some);
                                }
                            }
                            assert(self.world.players@[i as int] == w0.players@[i as int]);
                        }
                        let ns = take_notes(&mut self.world.players[i]);
                        send_all(c, &ns, &mut out);
                        proof {
                            let q = self.world.players@[i as int];
                            assert(self.world.players@ =~= before.players@.update(i as int, q));
                            crate::game::world::lemma_same_shape_update(before, self.world, i as int, q);
                            assert forall|j: int| 0 <= j < w0.players@.len() implies if controlled(
                                cs.take(k + 1),
                                w0.players@[j].id,
                            ) {
                                &&& #[trigger] self.world.players@[j] == (Player {
                                    notifications: self.world.players@[j].notifications,
                                    ..w0.players@[j]
                                })
                                &&& self.world.players@[j].notifications@.len() == 0
                            } else {
                                self.world.players@[j] == w0.players@[j]
                            } by {
                                if j != i {
                                    assert(w0.players@[j].id != pid);
                                    assert(self.world.players@[j] == before.players@[j]);
                                }
                            }
                        }
                    },
                    None => {
                        proof {
                            assert(!has_player(w0.players@, pid)) by {
                                if has_player(w0.players@, pid) {
                                    let j = choose|j: int| 0 <= j < w0.players@.len() && #[trigger] w0.players@[j].id == pid;
                                    assert(self.world.players@[j].id == pid);
                                }
                            }
                            assert forall|j: int| 0 <= j < w0.players@.len() implies if controlled(
                                cs.take(k + 1),
                                w0.players@[j].id,
                            ) {
                                &&& #[trigger] self.world.players@[j] == (Player {
                                    notifications: self.world.players@[j].notifications,
                                    ..w0.players@[j]
                                })
                                &&& self.world.players@[j].notifications@.len() == 0
                            } else {
                                self.world.players@[j] == w0.players@[j]
                            } by {
                                assert(w0.players@[j].id != pid);
                            }
                            assert(actions(out@) =~= n0 + Seq::<ActionModel>::empty());
                        }
                    },
                }
            } else {
                proof {
                    assert(player_of(st) is None);
                    assert(actions(out@) =~= n0 + Seq::<ActionModel>::empty());
                }
            }
            k = k + 1;
        }
        assert(cs.take(cs.len() as int) =~= cs);
        proof {
            assert forall|q: usize| #[trigger] has_player(w0.players@, q) implies has_player(self.world.players@, q) by {
                let j = choose|j: int| 0 <= j < w0.players@.len() && #[trigger] w0.players@[j].id == q;
                assert(self.world.players@[j].id == q);
            }
            lemma_wf_world(old_self, *self);
        }
        out
    }

    /// Ends the turn: when a team won (see [`victor`]), the graphical
    /// clients get `seg`, the dashboard learns of it, and `true` asks the
    /// loop to stop; otherwise the dashboard gets the players' positions.
    pub fn conclude(&self) -> (res: (bool, Vec<Action>))
        ensures
            res.0 == outcome(self.client_states@, self.world).0,
            actions(res.1@) == outcome(self.client_states@, self.world).1,
    {
        let mut out: Vec<Action> = Vec::new();
        match self.world.check_victory() {
            Some(team) => {
                let line = lines::text("seg", team.as_str());
                self.broadcast_gui(line.as_str(), &mut out);
                let mut m = lines::fixed("Game Over! Team ");
                m.append(team.as_str());
                m.append(" wins!");
                let ghost prev = actions(out@);
                out.push(Action::Event(ServerEvent::Log(m)));
                out.push(Action::Event(ServerEvent::GameOver(team)));
                assert(actions(out@) =~= outcome(self.client_states@, self.world).1);
                (true, out)
            },
            None => {
                let mut ps: Vec<(u32, u32)> = Vec::new();
                let mut i: usize = 0;
                while i < self.world.players.len()
                    invariant
                        i <= self.world.players@.len(),
                        ps@ == positions(self.world.players@.take(i as int)),
                    decreases self.world.players.len() - i,
                {
                    let ghost prev = ps@;
                    ps.push((self.world.players[i].x, self.world.players[i].y));
                    assert(self.world.players@.take(i + 1) =~= self.world.players@.take(i as int).push(self.world.players@[i as int]));
                    assert(ps@ =~= positions(self.world.players@.take(i + 1)));
                    i = i + 1;
                }
                assert(self.world.players@.take(self.world.players@.len() as int) =~= self.world.players@);
                out.push(Action::Event(ServerEvent::MapSnapshot(ps)));
                assert(actions(out@) =~= outcome(self.client_states@, self.world).1);
                (false, out)
            },
        }
    }

    /// One turn of the loop at `now` (see [`ticked`]); returns whether the
    /// game is over, and the actions to perform.
    pub fn on_tick_at(&mut self, now: u64) -> (res: (bool, Vec<Action>))
        requires
            old(self).wf(),
        ensures
            final(self).wf(),
            ticked(*old(self), *final(self), now, res.0, actions(res.1@)),
            none_due(final(self).world, final(self).client_states@, now),
    {
        let ghost s0 = *self;
        self.respawn(now);
        let ghost s1 = *self;
        let (sent, dead, due) = self.survey_clients(now);
        let ghost s2 = *self;
        proof {
            lemma_survey_due_players(s1.client_states@, s1.world, now);
            assert forall|i: int| 0 <= i < due@.len() implies has_player(self.world.players@, #[trigger] due@[i].1) by {
                assert(due_view(due@)[i].1 == due@[i].1);
                let pid = due@[i].1;
                assert(has_player(s1.world.players@, pid));
                let j = choose|j: int| 0 <= j < s1.world.players@.len() && #[trigger] s1.world.players@[j].id == pid;
                assert(self.world.players@[j].id == pid);
            }
        }
        let ghost dv = due_view(due@);
        let ghost deadv = dead@;
        let mut out = sent;
        let ghost a0 = actions(out@);
        let mut ran_out = self.run_due(due, now);
        let ghost s3 = *self;
        let ghost a1 = actions(ran_out@);
        out.append(&mut ran_out);
        let mut buried_out = self.bury(dead);
        let ghost s4 = *self;
        let ghost a2 = actions(buried_out@);
        out.append(&mut buried_out);
        let mut egg_out = self.expire_eggs(now);
        let ghost s5 = *self;
        let ghost a3 = actions(egg_out@);
        out.append(&mut egg_out);
        let mut event_out = self.broadcast_events();
        let ghost s6 = *self;
        let ghost a4 = actions(event_out@);
        out.append(&mut event_out);
        let mut note_out = self.flush_notifications();
        let ghost a5 = actions(note_out@);
        out.append(&mut note_out);
        let (stop, mut last) = self.conclude();
        let ghost a6 = actions(last@);
        out.append(&mut last);
        proof {
            assert(actions(out@) =~= a0 + a1 + a2 + a3 + a4 + a5 + a6);
            let sv = survey(s0.client_states@, s1.world, now);
            let (ws, rs) = choose|ws: Seq<World>, rs: Seq<Seq<char>>|
                {
                    &&& ran(dv, ws, rs, now)
                    &&& ws[0] == s2.world
                    &&& ws.last() == s3.world
                    &&& a1 == answers(dv, rs)
                };
            let (ss, outs) = choose|ss: Seq<Server>, outs: Seq<Seq<ActionModel>>|
                {
                    &&& buried(deadv, ss, outs)
                    &&& ss[0] == s3
                    &&& ss.last() == s4
                    &&& a2 == outs.flatten()
                };
            assert(tick_phases(s0, *self, now, stop, actions(out@), s1, s2, ws, rs, ss, outs, s5, s6));
            let cs = s1.client_states@;
            lemma_survey_dead(cs, s1.world, now);
            assert forall|j: int, k: int|
                0 <= j < self.world.players@.len() && controlled(self.client_states@, self.world.players@[j].id)
                    && 0 <= k < self.world.players@[j].commands@.len()
                implies #[trigger] self.world.players@[j].commands@[k].end_time > now by {
                let p = self.world.players@[j];
                assert(p.commands == s6.world.players@[j].commands);
                assert(p.id == s6.world.players@[j].id);
                assert(s6.world.players@[j] == s4.world.players@[j]);
                let q = s4.world.players@[j];
                assert(s3.world.players@.contains(q));
                let j0 = choose|j0: int| 0 <= j0 < s3.world.players@.len() && s3.world.players@[j0] == q;
                lemma_controlled_kept(s4.client_states@, s3.client_states@, p.id);
                assert(controlled(cs, p.id));
                let p1 = s1.world.players@[j0];
                assert(s2.world.players@[j0].id == p1.id);
                assert(s3.world.players@[j0].commands == s2.world.players@[j0].commands);
                assert(s3.world.players@[j0].id == s2.world.players@[j0].id);
                if now < p1.death_time {
                    assert(s2.world.players@[j0].commands@[k].end_time > now);
                } else {
                    crate::game::world::lemma_player_index(s1.world.players@, j0);
                    let m = choose|m: int| 0 <= m < cs.len() && #[trigger] player_of(cs[m].1) == Some(p.id);
                    assert(survey(cs, s1.world, now).dead.contains((cs[m].0, p.id)));
                    let i = choose|i: int| 0 <= i < deadv.len() && deadv[i] == (cs[m].0, p.id);
                    lemma_client_index(cs, m);
                    assert(state_of(cs, cs[m].0) == Some(ClientState::InGame(p.id)));
                    assert(!has_player(s4.world.players@, deadv[i].1));
                    assert(s4.world.players@[j].id == p.id);
                    assert(false);
                }
            }
        }
        (stop, out)
    }

    /// One turn of the loop at the current time (see [`ticked`]); returns
    /// whether the game is over, and the actions to perform.
    pub fn on_tick(&mut self) -> (res: (bool, Vec<Action>))
        requires
            old(self).wf(),
        ensures
            final(self).wf(),
            exists|now: u64|
                ticked(*old(self), *final(self), now, res.0, actions(res.1@)) && none_due(
                    final(self).world,
                    final(self).client_states@,
                    now,
                ),
    {
        let now = now_nanos();
        self.on_tick_at(now)
    }

    /// How long the loop may wait at `now` before the next turn, in
    /// nanoseconds: until the next deadline (see [`next_deadline`]), and no
    /// more than `MAX_WAIT`.
    pub fn get_next_timeout_at(&self, now: u64) -> (res: u64)
        ensures
            res == sat_sub(next_deadline(self.world, now), now as nat),
            res <= MAX_WAIT,
    {
        let mut min_time = now.saturating_add(MAX_WAIT);
        let mut i: usize = 0;
        while i < self.world.players.len()
            invariant
                i <= self.world.players@.len(),
                min_time == players_deadline(
                    self.world.players@.take(i as int),
                    sat_add(now as nat, MAX_WAIT as nat) as nat,
                ),
                min_time <= sat_add(now as nat, MAX_WAIT as nat),
            decreases self.world.players.len() - i,
        {
            let p = &self.world.players[i];
            if p.commands.len() > 0 && p.commands[0].end_time < min_time {
                min_time = p.commands[0].end_time;
            }
            if p.death_time < min_time {
                min_time = p.death_time;
            }
            proof {
                assert(self.world.players@.take(i + 1).drop_last() =~= self.world.players@.take(i as int));
                assert(self.world.players@.take(i + 1).last() == self.world.players@[i as int]);
            }
            i = i + 1;
        }
        assert(self.world.players@.take(self.world.players@.len() as int) =~= self.world.players@);
        let ghost pb = min_time as nat;
        let mut j: usize = 0;
        while j < self.world.eggs.len()
            invariant
                j <= self.world.eggs@.len(),
                min_time == eggs_deadline(self.world.eggs@.take(j as int), pb),
                min_time <= sat_add(now as nat, MAX_WAIT as nat),
            decreases self.world.eggs.len() - j,
        {
            if self.world.eggs[j].death_time < min_time {
                min_time = self.world.eggs[j].death_time;
            }
            proof {
                assert(self.world.eggs@.take(j + 1).drop_last() =~= self.world.eggs@.take(j as int));
                assert(self.world.eggs@.take(j + 1).last() == self.world.eggs@[j as int]);
            }
            j = j + 1;
        }
        assert(self.world.eggs@.take(self.world.eggs@.len() as int) =~= self.world.eggs@);
        if self.world.next_spawn_time < min_time {
            min_time = self.world.next_spawn_time;
        }
        min_time.saturating_sub(now)
    }

    /// How long the loop may wait before the next turn, in nanoseconds (see
    /// [`Server::get_next_timeout_at`]).
    pub fn get_next_timeout(&self) -> (res: u64)
        ensures
            exists|now: u64| res == sat_sub(next_deadline(self.world, now), now as nat),
            res <= MAX_WAIT,
    {
        let now = now_nanos();
        self.get_next_timeout_at(now)
    }
}

} // verus!
