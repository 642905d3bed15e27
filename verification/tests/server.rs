use zappy_server::config::ServerConfig;
use zappy_server::game::player::Direction;
use zappy_server::network::server::{Action, ClientState, Server, ServerEvent, MAX_WAIT};

fn config() -> ServerConfig {
    ServerConfig {
        port: 4242,
        width: 5,
        height: 5,
        teams: vec!["TeamA".to_string(), "TeamB".to_string()],
        clients_nb: 10,
        freq: 100,
        bonus: false,
    }
}

fn sent(actions: &[Action]) -> Vec<(usize, String)> {
    let mut v = Vec::new();
    for a in actions {
        if let Action::Send(c, t) = a {
            v.push((*c, t.clone()));
        }
    }
    v
}

fn logs(actions: &[Action]) -> Vec<String> {
    let mut v = Vec::new();
    for a in actions {
        if let Action::Event(ServerEvent::Log(m)) = a {
            v.push(m.clone());
        }
    }
    v
}

#[test]
fn connecting_client_is_welcomed() {
    let mut server = Server::new(config());
    let out = server.on_client_connected(7);
    assert_eq!(out.len(), 3);
    assert!(matches!(&out[0], Action::Send(7, t) if t == "WELCOME\n"));
    assert!(matches!(&out[1], Action::Event(ServerEvent::Log(m)) if m == "New connection from client 7"));
    assert!(matches!(&out[2], Action::Event(ServerEvent::ClientConnected)));
    assert_eq!(server.client_states, vec![(7, ClientState::Authenticating)]);
}

#[test]
fn graphic_client_receives_the_whole_state() {
    let mut server = Server::new(config());
    server.on_client_connected(1);
    let out = server.handle_message_at(1, "GRAPHIC", 0, 0, 0, Direction::North);
    let texts = sent(&out);
    assert_eq!(texts[0].1, "smg Welcome to Zappy Server!\n");
    assert_eq!(texts[1].1, "msz 5 5\n");
    assert_eq!(texts[2].1, "sgt 100\n");
    assert!(texts[3].1.starts_with("bct 0 0 "));
    assert!(texts[27].1.starts_with("bct 4 4 "));
    assert_eq!(texts[28].1, "tna TeamA\n");
    assert_eq!(texts[29].1, "tna TeamB\n");
    assert_eq!(texts.len(), 30);
    assert_eq!(logs(&out), vec!["Graphic client connected (ID: 1)".to_string()]);
    assert_eq!(server.client_states, vec![(1, ClientState::Graphic)]);
}

#[test]
fn joining_a_team_answers_free_places_and_map_size() {
    let mut server = Server::new(config());
    server.on_client_connected(3);
    let out = server.handle_message_at(3, "TeamA", 0, 2, 4, Direction::East);
    assert_eq!(sent(&out), vec![(3, "9\n5 5\n".to_string())]);
    assert_eq!(logs(&out), vec!["Player 1 joined team 'TeamA'".to_string()]);
    assert!(matches!(&out[2], Action::Event(ServerEvent::PlayerJoinedTeam(t)) if t == "TeamA"));
    assert_eq!(server.client_states, vec![(3, ClientState::InGame(1))]);
    let p = &server.world.players[0];
    assert_eq!((p.x, p.y, p.direction), (2, 4, Direction::East));
    assert_eq!(server.world.gui_events.len(), 2);
    assert_eq!(server.world.gui_events[0], "pnw #1 2 4 2 1 TeamA\n");
    assert_eq!(server.world.gui_events[1], "pin #1 2 4 10 0 0 0 0 0 0\n");
}

#[test]
fn joining_an_unknown_team_is_refused() {
    let mut server = Server::new(config());
    server.on_client_connected(3);
    let out = server.handle_message_at(3, "Nobody", 0, 0, 0, Direction::North);
    assert_eq!(sent(&out), vec![(3, "ko\n".to_string())]);
    assert_eq!(server.client_states, vec![(3, ClientState::Authenticating)]);
}

#[test]
fn player_lines_are_queued_or_refused() {
    let mut server = Server::new(config());
    server.on_client_connected(3);
    server.handle_message_at(3, "TeamA", 0, 0, 0, Direction::North);
    let out = server.handle_message_at(3, "Dance", 0, 0, 0, Direction::North);
    assert_eq!(sent(&out), vec![(3, "ko\n".to_string())]);
    let out = server.handle_message_at(3, "Forward", 0, 0, 0, Direction::North);
    assert!(out.is_empty());
    assert_eq!(server.world.players[0].commands.len(), 1);
    assert_eq!(server.world.players[0].commands[0].end_time, 70_000_000);
}

#[test]
fn eleventh_command_is_dropped() {
    let mut server = Server::new(config());
    server.on_client_connected(3);
    server.handle_message_at(3, "TeamA", 0, 0, 0, Direction::North);
    for _ in 0..11 {
        server.handle_message_at(3, "Left", 0, 0, 0, Direction::North);
    }
    assert_eq!(server.world.players[0].commands.len(), 10);
    assert_eq!(server.world.players[0].last_command_end, 700_000_000);
}

#[test]
fn graphic_requests_are_answered() {
    let mut server = Server::new(config());
    server.on_client_connected(1);
    server.handle_message_at(1, "GRAPHIC", 0, 0, 0, Direction::North);
    let out = server.handle_message_at(1, "hello", 0, 0, 0, Direction::North);
    assert_eq!(sent(&out), vec![(1, "suc\n".to_string())]);
    let out = server.handle_message_at(1, "msz", 0, 0, 0, Direction::North);
    assert_eq!(sent(&out), vec![(1, "msz 5 5\n".to_string())]);
    let out = server.handle_message_at(1, "sst 200", 0, 0, 0, Direction::North);
    assert_eq!(logs(&out), vec!["GUI modified frequency to 200".to_string()]);
    assert!(matches!(&out[1], Action::Event(ServerEvent::FreqChanged(200))));
    assert_eq!(sent(&out), vec![(1, "sst 200\n".to_string())]);
    assert_eq!(server.config.freq, 200);
    assert_eq!(server.world.freq, 200);
}

#[test]
fn disconnecting_player_dies_and_frees_its_slot() {
    let mut server = Server::new(config());
    server.on_client_connected(1);
    server.handle_message_at(1, "GRAPHIC", 0, 0, 0, Direction::North);
    server.on_client_connected(2);
    server.handle_message_at(2, "TeamB", 0, 1, 1, Direction::North);
    assert_eq!(server.world.team_slots_of("TeamB"), Some(9));
    let out = server.on_client_disconnected(2);
    assert_eq!(logs(&out), vec!["Client 2 disconnected".to_string()]);
    assert!(matches!(&out[1], Action::Event(ServerEvent::ClientDisconnected)));
    assert_eq!(sent(&out), vec![(1, "pdi #1\n".to_string())]);
    assert!(matches!(&out[3], Action::Event(ServerEvent::PlayerDied(t)) if t == "TeamB"));
    assert_eq!(server.world.players.len(), 0);
    assert_eq!(server.world.team_slots_of("TeamB"), Some(10));
    assert_eq!(server.client_states, vec![(1, ClientState::Graphic)]);
}

#[test]
fn unknown_client_is_ignored() {
    let mut server = Server::new(config());
    let out = server.handle_message_at(9, "GRAPHIC", 0, 0, 0, Direction::North);
    assert!(out.is_empty());
    assert!(server.client_states.is_empty());
}

#[test]
fn due_command_runs_on_tick() {
    let mut server = Server::new(config());
    server.on_client_connected(1);
    server.handle_message_at(1, "GRAPHIC", 0, 0, 0, Direction::North);
    server.on_client_connected(2);
    server.handle_message_at(2, "TeamA", 0, 2, 2, Direction::North);
    server.handle_message_at(2, "Forward", 0, 0, 0, Direction::North);
    let (stop, out) = server.on_tick_at(70_000_000);
    assert!(!stop);
    let texts = sent(&out);
    assert!(texts.contains(&(2, "ok\n".to_string())));
    assert!(texts.contains(&(1, "ppo #1 2 1 1\n".to_string())));
    assert_eq!(server.world.players[0].y, 1);
    assert!(matches!(out.last(), Some(Action::Event(ServerEvent::MapSnapshot(ps))) if ps == &vec![(2u32, 1u32)]));
}

#[test]
fn starving_player_is_told_and_disconnected() {
    let mut server = Server::new(config());
    server.on_client_connected(1);
    server.handle_message_at(1, "GRAPHIC", 0, 0, 0, Direction::North);
    server.on_client_connected(2);
    server.handle_message_at(2, "TeamA", 0, 0, 0, Direction::North);
    // 1260 time units at frequency 100 last 12.6 s.
    let (_, out) = server.on_tick_at(12_600_000_000);
    let texts = sent(&out);
    assert_eq!(texts[0], (2, "dead\n".to_string()));
    assert!(texts.contains(&(1, "pdi #1\n".to_string())));
    assert!(logs(&out).contains(&"Player 1 (Team: TeamA) starved to death.".to_string()));
    assert!(out.iter().any(|a| matches!(a, Action::Disconnect(2))));
    assert_eq!(server.world.players.len(), 0);
    assert_eq!(server.client_states, vec![(1, ClientState::Graphic)]);
}

#[test]
fn timeout_is_capped() {
    let server = Server::new(config());
    assert_eq!(server.get_next_timeout_at(0), MAX_WAIT);
    assert!(server.get_next_timeout() <= MAX_WAIT);
}

#[test]
fn timeout_waits_for_the_next_command() {
    let mut server = Server::new(config());
    server.on_client_connected(2);
    server.handle_message_at(2, "TeamA", 0, 0, 0, Direction::North);
    server.handle_message_at(2, "Inventory", 0, 0, 0, Direction::North);
    // Inventory lasts 1 time unit: 10 ms at frequency 100.
    assert_eq!(server.get_next_timeout_at(0), 10_000_000);
}

#[test]
fn queued_commands_run_back_to_back_and_none_stays_due() {
    let mut server = Server::new(config());
    server.on_client_connected(2);
    server.handle_message_at(2, "TeamA", 0, 0, 0, Direction::North);
    server.handle_message_at(2, "Left", 0, 0, 0, Direction::North);
    server.handle_message_at(2, "Left", 0, 0, 0, Direction::North);
    server.handle_message_at(2, "Left", 0, 0, 0, Direction::North);
    let q = &server.world.players[0].commands;
    assert_eq!((q[0].end_time, q[1].end_time, q[2].end_time), (70_000_000, 140_000_000, 210_000_000));
    let (_, out) = server.on_tick_at(150_000_000);
    assert_eq!(sent(&out), vec![(2, "ok\n".to_string()), (2, "ok\n".to_string())]);
    let q = &server.world.players[0].commands;
    assert_eq!(q.len(), 1);
    assert!(q[0].end_time > 150_000_000);
    assert_eq!(server.world.players[0].direction, Direction::South);
}
