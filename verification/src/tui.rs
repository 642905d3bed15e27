//! The state of the terminal dashboard: how it follows the reports of the
//! server and the keys of its user. Drawing it is left to the program.

use vstd::prelude::*;
use crate::config::ServerConfig;
use crate::network::server::{EventModel, ServerEvent};
use crate::text::chars_of;

verus! {

/// The colour of a log line.
#[derive(Debug, Clone, Copy, PartialEq, Eq, Structural)]
pub enum LogColor {
    Green,
    Red,
    Yellow,
    Blue,
    Magenta,
    White,
}

/// What `str::to_lowercase` makes of a text: its lowercase form under the
/// Unicode rules (a character's lowercase mapping, with the final-sigma
/// rule for `Σ`).
pub uninterp spec fn lowercase(s: Seq<char>) -> Seq<char>;

/// The text in lowercase (`str::to_lowercase`); the result is a function
/// of the text alone.
#[verifier::external_body]
fn to_lower(s: &str) -> (res: String)
    ensures
        res@ == lowercase(s@),
{
    s.to_lowercase()
}

/// `p` occurs in `s`.
pub open spec fn has_part(s: Seq<char>, p: Seq<char>) -> bool {
    exists|i: int| 0 <= i && i + p.len() <= s.len() && #[trigger] s.subrange(i, i + p.len()) == p
}

/// Whether `p` occurs in `s`.
pub fn contains_text(s: &Vec<char>, p: &str) -> (res: bool)
    ensures
        res == has_part(s@, p@),
{
    let pc = chars_of(p);
    if pc.len() == 0 {
        assert(s@.subrange(0, 0 + p@.len() as int) =~= p@);
        return true;
    }
    if pc.len() > s.len() {
        return false;
    }
    let last = s.len() - pc.len();
    let mut i: usize = 0;
    while i <= last
        invariant
            pc@ == p@,
            0 < pc.len() <= s.len(),
            last == s.len() - pc.len(),
            i <= last + 1,
            forall|j: int| 0 <= j < i ==> #[trigger] s@.subrange(j, j + pc@.len()) != pc@,
        decreases last + 1 - i,
    {
        let mut k: usize = 0;
        while k < pc.len() && s[i + k] == pc[k]
            invariant
                i <= last,
                0 < pc.len() <= s.len(),
                last == s.len() - pc.len(),
                i + pc.len() <= s.len(),
                k <= pc.len(),
                forall|m: int| 0 <= m < k ==> s@[i + m] == pc@[m],
            decreases pc.len() - k,
        {
            k = k + 1;
        }
        if k == pc.len() {
            assert(s@.subrange(i as int, i + pc@.len()) =~= pc@);
            return true;
        }
        assert(s@.subrange(i as int, i + pc@.len())[k as int] != pc@[k as int]);
        i = i + 1;
    }
    assert forall|j: int| 0 <= j && j + p@.len() <= s@.len() implies #[trigger] s@.subrange(j, j + p@.len()) != p@ by {
        assert(j < i);
    }
    false
}

/// The colour of a log line, from its lowercase text: green for
/// connections and joins, red for disconnections and deaths, yellow for
/// executions, blue for the graphical interface, magenta for the end of the
/// game, white otherwise (the first that applies).
pub open spec fn color_for(l: Seq<char>) -> LogColor {
    if has_part(l, "connected"@) || has_part(l, "joined"@) {
        LogColor::Green
    } else if has_part(l, "disconnected"@) || has_part(l, "starved"@) || has_part(l, "dead"@) {
        LogColor::Red
    } else if has_part(l, "executing"@) {
        LogColor::Yellow
    } else if has_part(l, "gui"@) {
        LogColor::Blue
    } else if has_part(l, "game over"@) {
        LogColor::Magenta
    } else {
        LogColor::White
    }
}

/// The colour of a log line (see [`color_for`]), matched without regard to
/// case.
pub fn determine_log_color(msg: &str) -> (res: LogColor)
    ensures
        res == color_for(lowercase(msg@)),
{
    let lower = to_lower(msg);
    let l = chars_of(lower.as_str());
    if contains_text(&l, "connected") || contains_text(&l, "joined") {
        LogColor::Green
    } else if contains_text(&l, "disconnected") || contains_text(&l, "starved") || contains_text(
        &l,
        "dead",
    ) {
        LogColor::Red
    } else if contains_text(&l, "executing") {
        LogColor::Yellow
    } else if contains_text(&l, "gui") {
        LogColor::Blue
    } else if contains_text(&l, "game over") {
        LogColor::Magenta
    } else {
        LogColor::White
    }
}

/// A key pressed by the user of the dashboard.
#[derive(Debug, Clone, Copy, PartialEq, Eq, Structural)]
pub enum Key {
    Char(char),
    Right,
    Left,
    Other,
}

/// The most log lines the dashboard keeps.
pub const MAX_LOGS: usize = 200usize;

/// The state of the dashboard.
pub struct TuiState {
    /// The latest log lines, oldest first, with their colours.
    pub logs: Vec<(String, LogColor)>,
    /// How many clients are connected.
    pub connected_clients: usize,
    /// The players of each team, each team once.
    pub team_counts: Vec<(String, usize)>,
    /// The current frequency.
    pub freq: u32,
    /// The winning team, once the game is over.
    pub game_over: Option<String>,
    /// How many log lines reported the execution of a command.
    pub total_commands_executed: usize,
    /// The tab shown: 0 for the dashboard, 1 for the map.
    pub active_tab: usize,
    /// The positions of the players, as last reported.
    pub player_positions: Vec<(u32, u32)>,
}

/// The team names of `ts`, as character sequences.
pub open spec fn team_names(ts: Seq<(String, usize)>) -> Seq<Seq<char>> {
    ts.map_values(|t: (String, usize)| t.0@)
}

/// No team name occurs twice in `ts`.
pub open spec fn teams_distinct(ts: Seq<(String, usize)>) -> bool {
    forall|i: int, j: int|
        0 <= i < ts.len() && 0 <= j < ts.len() && i != j ==> #[trigger] ts[i].0@ != #[trigger] ts[j].0@
}

/// Where team `name` stands in `ts`, if it is there.
pub open spec fn team_at(ts: Seq<(String, usize)>, name: Seq<char>) -> Option<int> {
    if exists|i: int| 0 <= i < ts.len() && #[trigger] ts[i].0@ == name {
        Some(choose|i: int| 0 <= i < ts.len() && #[trigger] ts[i].0@ == name)
    } else {
        None
    }
}

/// The players counted for team `name` (0 for a team not listed).
pub open spec fn count_of(ts: Seq<(String, usize)>, name: Seq<char>) -> nat {
    match team_at(ts, name) {
        Some(i) => ts[i].1 as nat,
        None => 0,
    }
}

/// `n + 1`, or `n` at the largest `usize`.
pub open spec fn bump(n: usize) -> usize {
    if n < usize::MAX {
        (n + 1) as usize
    } else {
        n
    }
}

/// `n - 1`, or 0 for 0.
pub open spec fn drop_one(n: usize) -> usize {
    if n > 0 {
        (n - 1) as usize
    } else {
        0
    }
}

/// The contents of log lines.
pub open spec fn log_view(logs: Seq<(String, LogColor)>) -> Seq<(Seq<char>, LogColor)> {
    logs.map_values(|e: (String, LogColor)| (e.0@, e.1))
}

/// The contents of team counts.
pub open spec fn counts_view(ts: Seq<(String, usize)>) -> Seq<(Seq<char>, usize)> {
    ts.map_values(|e: (String, usize)| (e.0@, e.1))
}

/// The log lines `logs` with `entry` added, keeping the latest `MAX_LOGS`.
pub open spec fn logged(logs: Seq<(Seq<char>, LogColor)>, entry: (Seq<char>, LogColor)) -> Seq<
    (Seq<char>, LogColor),
> {
    if logs.len() + 1 > MAX_LOGS {
        logs.push(entry).drop_first()
    } else {
        logs.push(entry)
    }
}

/// The sum of the counts of `ts`.
pub open spec fn sum_counts(ts: Seq<(String, usize)>) -> nat
    decreases ts.len(),
{
    if ts.len() == 0 {
        0
    } else {
        sum_counts(ts.drop_last()) + ts.last().1 as nat
    }
}

/// `new` is the dashboard `old` after report `e`: a log line is kept (and
/// counted when it tells of an execution); connections and disconnections
/// are counted (never below zero); a join adds a player to its team (listing
/// a new team), a death removes one from a listed team (never below zero);
/// the frequency, the winner and the positions are recorded.
pub open spec fn applied(old: TuiState, new: TuiState, e: EventModel) -> bool {
    match e {
        EventModel::Log(m) => {
            let color = color_for(lowercase(m));
            &&& new == (TuiState {
                logs: new.logs,
                total_commands_executed: new.total_commands_executed,
                ..old
            })
            &&& log_view(new.logs@) == logged(log_view(old.logs@), (m, color))
            &&& new.total_commands_executed == if color == LogColor::Yellow {
                bump(old.total_commands_executed)
            } else {
                old.total_commands_executed
            }
        },
        EventModel::ClientConnected => new == (TuiState {
            connected_clients: bump(old.connected_clients),
            ..old
        }),
        EventModel::ClientDisconnected => new == (TuiState {
            connected_clients: drop_one(old.connected_clients),
            ..old
        }),
        EventModel::PlayerJoinedTeam(t) => {
            &&& new == (TuiState { team_counts: new.team_counts, ..old })
            &&& counts_view(new.team_counts@) == match team_at(old.team_counts@, t) {
                Some(i) => counts_view(old.team_counts@).update(i, (t, bump(old.team_counts@[i].1))),
                None => counts_view(old.team_counts@).push((t, 1usize)),
            }
        },
        EventModel::PlayerDied(t) => {
            &&& new == (TuiState { team_counts: new.team_counts, ..old })
            &&& counts_view(new.team_counts@) == match team_at(old.team_counts@, t) {
                Some(i) => counts_view(old.team_counts@).update(i, (t, drop_one(old.team_counts@[i].1))),
                None => counts_view(old.team_counts@),
            }
        },
        EventModel::FreqChanged(f) => new == (TuiState { freq: f, ..old }),
        EventModel::GameOver(t) => {
            &&& new == (TuiState { game_over: new.game_over, ..old })
            &&& new.game_over is Some
            &&& new.game_over->0@ == t
        },
        EventModel::MapSnapshot(ps) => {
            &&& new == (TuiState { player_positions: new.player_positions, ..old })
            &&& new.player_positions@ == ps
        },
    }
}

/// `new` is the dashboard `old` after key `k`, and `quit` tells whether the
/// user asked to leave: `q` leaves, `c` clears the log, the right arrow or
/// `2` shows the map, the left arrow or `1` the dashboard; other keys do
/// nothing.
pub open spec fn keyed(old: TuiState, new: TuiState, k: Key, quit: bool) -> bool {
    &&& quit == (k == Key::Char('q'))
    &&& match k {
        Key::Char('c') => {
            &&& new == (TuiState { logs: new.logs, ..old })
            &&& new.logs@.len() == 0
        },
        Key::Right | Key::Char('2') => new == (TuiState { active_tab: 1, ..old }),
        Key::Left | Key::Char('1') => new == (TuiState { active_tab: 0, ..old }),
        _ => new == old,
    }
}

impl TuiState {
    /// The invariant: each team is listed once, and at most `MAX_LOGS`
    /// lines are kept.
    pub open spec fn wf(self) -> bool {
        &&& teams_distinct(self.team_counts@)
        &&& self.logs@.len() <= MAX_LOGS
    }

    /// Where team `name` stands among the counts, if it is there.
    pub fn find_team(&self, name: &str) -> (res: Option<usize>)
        requires
            teams_distinct(self.team_counts@),
        ensures
            match res {
                Some(i) => team_at(self.team_counts@, name@) == Some(i as int) && i < self.team_counts@.len(),
                None => team_at(self.team_counts@, name@) is None,
            },
    {
        let n = chars_of(name);
        let mut i: usize = 0;
        while i < self.team_counts.len()
            invariant
                n@ == name@,
                i <= self.team_counts@.len(),
                teams_distinct(self.team_counts@),
                forall|j: int| 0 <= j < i ==> #[trigger] self.team_counts@[j].0@ != name@,
            decreases self.team_counts.len() - i,
        {
            let t = chars_of(self.team_counts[i].0.as_str());
            if crate::text::chars_eq(&t, &n) {
                proof {
                    let ts = self.team_counts@;
                    assert(ts[i as int].0@ == name@);
                    let c = choose|c: int| 0 <= c < ts.len() && #[trigger] ts[c].0@ == name@;
                    if c != i {
                        assert(ts[c].0@ != ts[i as int].0@);
                    }
                }
                return Some(i);
            }
            i = i + 1;
        }
        None
    }

    /// The dashboard at start: no log, no client, every configured team
    /// (each once) with no player, the configured frequency, the first tab.
    pub fn new(config: &ServerConfig) -> (res: TuiState)
        ensures
            res.wf(),
            res.logs@.len() == 0,
            res.connected_clients == 0,
            res.freq == config.freq,
            res.game_over is None,
            res.total_commands_executed == 0,
            res.active_tab == 0,
            res.player_positions@.len() == 0,
            forall|n: Seq<char>|
                team_names(res.team_counts@).contains(n) <==> config.teams@.map_values(|t: String| t@).contains(n),
            forall|i: int| 0 <= i < res.team_counts@.len() ==> #[trigger] res.team_counts@[i].1 == 0,
    {
        let mut st = TuiState {
            logs: Vec::new(),
            connected_clients: 0,
            team_counts: Vec::new(),
            freq: config.freq,
            game_over: None,
            total_commands_executed: 0,
            active_tab: 0,
            player_positions: Vec::new(),
        };
        let ghost names = config.teams@.map_values(|t: String| t@);
        let mut i: usize = 0;
        while i < config.teams.len()
            invariant
                names == config.teams@.map_values(|t: String| t@),
                i <= config.teams@.len(),
                st.wf(),
                st.logs@.len() == 0,
                st.connected_clients == 0,
                st.freq == config.freq,
                st.game_over is None,
                st.total_commands_executed == 0,
                st.active_tab == 0,
                st.player_positions@.len() == 0,
                forall|n: Seq<char>| team_names(st.team_counts@).contains(n) <==> names.take(i as int).contains(n),
                forall|k: int| 0 <= k < st.team_counts@.len() ==> #[trigger] st.team_counts@[k].1 == 0,
            decreases config.teams.len() - i,
        {
            let name = config.teams[i].clone();
            let ghost before = st.team_counts@;
            assert(names.take(i + 1) =~= names.take(i as int).push(name@));
            match st.find_team(name.as_str()) {
                Some(_) => {
                    assert forall|n: Seq<char>| team_names(st.team_counts@).contains(n) <==> names.take(i + 1).contains(n) by {
                        if n == name@ {
                            let j = choose|j: int| 0 <= j < before.len() && #[trigger] before[j].0@ == name@;
                            assert(team_names(before)[j] == n);
                        }
                    }
                },
                None => {
                    st.team_counts.push((name, 0));
                    assert(team_names(st.team_counts@) =~= team_names(before).push(name@));
                    assert forall|n: Seq<char>| team_names(st.team_counts@).contains(n) <==> names.take(i + 1).contains(n) by {
                        if team_names(st.team_counts@).contains(n) {
                            let j = choose|j: int| 0 <= j < team_names(st.team_counts@).len() && #[trigger] team_names(st.team_counts@)[j] == n;
                            if j < before.len() {
                                assert(team_names(before)[j] == n);
                                assert(team_names(before).contains(n));
                                assert(names.take(i as int).contains(n));
                                let m = choose|m: int| 0 <= m < names.take(i as int).len() && #[trigger] names.take(i as int)[m] == n;
                                assert(names.take(i + 1)[m] == n);
                            } else {
                                assert(names.take(i + 1)[i as int] == n);
                            }
                        }
                        if names.take(i + 1).contains(n) {
                            let m = choose|m: int| 0 <= m < names.take(i + 1).len() && #[trigger] names.take(i + 1)[m] == n;
                            if m < i {
                                assert(names.take(i as int)[m] == n);
                                assert(names.take(i as int).contains(n));
                                assert(team_names(before).contains(n));
                                let j = choose|j: int| 0 <= j < team_names(before).len() && #[trigger] team_names(before)[j] == n;
                                assert(team_names(st.team_counts@)[j] == n);
                            } else {
                                assert(team_names(st.team_counts@)[before.len() as int] == n);
                            }
                        }
                    }
                    assert forall|a: int, b: int|
                        0 <= a < st.team_counts@.len() && 0 <= b < st.team_counts@.len() && a != b implies #[trigger] st.team_counts@[a].0@
                        != #[trigger] st.team_counts@[b].0@ by {
                        if a < before.len() && b < before.len() {
                            assert(before[a].0@ != before[b].0@);
                        } else if a < before.len() {
                            assert(st.team_counts@[a] == before[a]);
                        } else {
                            assert(st.team_counts@[b] == before[b]);
                        }
                    }
                },
            }
            i = i + 1;
        }
        assert(names.take(i as int) =~= names);
        st
    }

    /// Follows report `event` (see [`applied`]).
    pub fn apply_event(&mut self, event: ServerEvent)
        requires
            old(self).wf(),
        ensures
            final(self).wf(),
            applied(*old(self), *final(self), event@),
    {
        let ghost e = event@;
        match event {
            ServerEvent::Log(msg) => {
                let color = determine_log_color(msg.as_str());
                let ghost before = log_view(self.logs@);
                let ghost m = msg@;
                self.logs.push((msg, color));
                assert(log_view(self.logs@) =~= before.push((m, color)));
                if self.logs.len() > MAX_LOGS {
                    self.logs.remove(0);
                    assert(log_view(self.logs@) =~= before.push((m, color)).drop_first());
                }
                if color == LogColor::Yellow && self.total_commands_executed < usize::MAX {
                    self.total_commands_executed = self.total_commands_executed + 1;
                }
            },
            ServerEvent::ClientConnected => {
                if self.connected_clients < usize::MAX {
                    self.connected_clients = self.connected_clients + 1;
                }
            },
            ServerEvent::ClientDisconnected => {
                if self.connected_clients > 0 {
                    self.connected_clients = self.connected_clients - 1;
                }
            },
            ServerEvent::PlayerJoinedTeam(team) => {
                let ghost before = self.team_counts@;
                match self.find_team(team.as_str()) {
                    Some(i) => {
                        let n = self.team_counts[i].1;
                        let v = if n < usize::MAX {
                            n + 1
                        } else {
                            n
                        };
                        let name = self.team_counts[i].0.clone();
                        self.team_counts.set(i, (name, v));
                        proof {
                            let j = team_at(before, team@)->0;
                            assert(before[j].0@ == team@);
                            assert(counts_view(self.team_counts@) =~= counts_view(before).update(i as int, (team@, bump(before[i as int].1))));
                            assert forall|a: int, b: int|
                                0 <= a < self.team_counts@.len() && 0 <= b < self.team_counts@.len() && a != b implies #[trigger] self.team_counts@[a].0@
                                != #[trigger] self.team_counts@[b].0@ by {
                                assert(self.team_counts@[a].0@ == before[a].0@);
                                assert(self.team_counts@[b].0@ == before[b].0@);
                            }
                        }
                    },
                    None => {
                        let ghost t = team@;
                        self.team_counts.push((team, 1));
                        proof {
                            assert(counts_view(self.team_counts@) =~= counts_view(before).push((t, 1usize)));
                            assert forall|a: int, b: int|
                                0 <= a < self.team_counts@.len() && 0 <= b < self.team_counts@.len() && a != b implies #[trigger] self.team_counts@[a].0@
                                != #[trigger] self.team_counts@[b].0@ by {
                                if a < before.len() && b < before.len() {
                                    assert(before[a].0@ != before[b].0@);
                                } else if a < before.len() {
                                    assert(self.team_counts@[a] == before[a]);
                                } else {
                                    assert(self.team_counts@[b] == before[b]);
                                }
                            }
                        }
                    },
                }
            },
            ServerEvent::PlayerDied(team) => {
                let ghost before = self.team_counts@;
                match self.find_team(team.as_str()) {
                    Some(i) => {
                        let n = self.team_counts[i].1;
                        let v = if n > 0 {
                            n - 1
                        } else {
                            0
                        };
                        let name = self.team_counts[i].0.clone();
                        self.team_counts.set(i, (name, v));
                        proof {
                            let j = team_at(before, team@)->0;
                            assert(before[j].0@ == team@);
                            assert(counts_view(self.team_counts@) =~= counts_view(before).update(i as int, (team@, drop_one(before[i as int].1))));
                            assert forall|a: int, b: int|
                                0 <= a < self.team_counts@.len() && 0 <= b < self.team_counts@.len() && a != b implies #[trigger] self.team_counts@[a].0@
                                != #[trigger] self.team_counts@[b].0@ by {
                                assert(self.team_counts@[a].0@ == before[a].0@);
                                assert(self.team_counts@[b].0@ == before[b].0@);
                            }
                        }
                    },
                    None => {},
                }
            },
            ServerEvent::FreqChanged(f) => {
                self.freq = f;
            },
            ServerEvent::GameOver(team) => {
                self.game_over = Some(team);
            },
            ServerEvent::MapSnapshot(ps) => {
                self.player_positions = ps;
            },
        }
    }

    /// Follows key `key` (see [`keyed`]); returns whether the user asked to
    /// leave.
    pub fn on_key(&mut self, key: Key) -> (quit: bool)
        requires
            old(self).wf(),
        ensures
            final(self).wf(),
            keyed(*old(self), *final(self), key, quit),
    {
        match key {
            Key::Char('q') => true,
            Key::Char('c') => {
                self.logs.clear();
                false
            },
            Key::Right | Key::Char('2') => {
                self.active_tab = 1;
                false
            },
            Key::Left | Key::Char('1') => {
                self.active_tab = 0;
                false
            },
            _ => false,
        }
    }

    /// The players of all teams together.
    pub fn total_players(&self) -> (res: u128)
        ensures
            res == sum_counts(self.team_counts@),
    {
        let mut total: u128 = 0;
        let mut i: usize = 0;
        while i < self.team_counts.len()
            invariant
                i <= self.team_counts@.len(),
                total == sum_counts(self.team_counts@.take(i as int)),
                total <= i * (usize::MAX as nat),
            decreases self.team_counts.len() - i,
        {
            assert(self.team_counts@.take(i + 1).drop_last() =~= self.team_counts@.take(i as int));
            assert((i + 1) * (usize::MAX as nat) == i * (usize::MAX as nat) + usize::MAX) by (nonlinear_arith);
            assert(i * (usize::MAX as nat) + usize::MAX <= u128::MAX) by (nonlinear_arith)
                requires
                    i < usize::MAX,
            ;
            total = total + self.team_counts[i].1 as u128;
            i = i + 1;
        }
        assert(self.team_counts@.take(self.team_counts@.len() as int) =~= self.team_counts@);
        total
    }
}

} // verus!
