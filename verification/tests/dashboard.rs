use zappy_server::config::ServerConfig;
use zappy_server::network::server::ServerEvent;
use zappy_server::tui::{determine_log_color, Key, LogColor, TuiState, MAX_LOGS};

fn config() -> ServerConfig {
    ServerConfig {
        port: 4242,
        width: 8,
        height: 6,
        teams: vec!["red".to_string(), "blue".to_string(), "red".to_string()],
        clients_nb: 3,
        freq: 50,
        bonus: true,
    }
}

#[test]
fn log_colors_follow_keywords() {
    assert_eq!(determine_log_color("Graphic client connected (ID: 1)"), LogColor::Green);
    // "connection" is not "connected".
    assert_eq!(determine_log_color("New connection from client 4"), LogColor::White);
    assert_eq!(determine_log_color("Player 1 joined team 'red'"), LogColor::Green);
    // "disconnected" holds "connected", which is looked for first.
    assert_eq!(determine_log_color("Client 2 disconnected"), LogColor::Green);
    assert_eq!(determine_log_color("Player 3 (Team: red) starved to death."), LogColor::Red);
    assert_eq!(determine_log_color("Player is DEAD"), LogColor::Red);
    assert_eq!(determine_log_color("Executing Forward"), LogColor::Yellow);
    assert_eq!(determine_log_color("GUI modified frequency to 200"), LogColor::Blue);
    assert_eq!(determine_log_color("Game Over! Team red wins!"), LogColor::Magenta);
    assert_eq!(determine_log_color("hello"), LogColor::White);
    assert_eq!(determine_log_color(""), LogColor::White);
}

#[test]
fn dashboard_starts_with_each_team_once() {
    let st = TuiState::new(&config());
    assert_eq!(st.team_counts, vec![("red".to_string(), 0), ("blue".to_string(), 0)]);
    assert_eq!(st.freq, 50);
    assert_eq!(st.active_tab, 0);
    assert_eq!(st.total_players(), 0);
}

#[test]
fn dashboard_follows_reports() {
    let mut st = TuiState::new(&config());
    st.apply_event(ServerEvent::ClientConnected);
    st.apply_event(ServerEvent::ClientConnected);
    st.apply_event(ServerEvent::ClientDisconnected);
    assert_eq!(st.connected_clients, 1);
    st.apply_event(ServerEvent::ClientDisconnected);
    st.apply_event(ServerEvent::ClientDisconnected);
    assert_eq!(st.connected_clients, 0);

    st.apply_event(ServerEvent::PlayerJoinedTeam("blue".to_string()));
    st.apply_event(ServerEvent::PlayerJoinedTeam("blue".to_string()));
    st.apply_event(ServerEvent::PlayerJoinedTeam("green".to_string()));
    st.apply_event(ServerEvent::PlayerDied("red".to_string()));
    st.apply_event(ServerEvent::PlayerDied("blue".to_string()));
    st.apply_event(ServerEvent::PlayerDied("nobody".to_string()));
    assert_eq!(
        st.team_counts,
        vec![("red".to_string(), 0), ("blue".to_string(), 1), ("green".to_string(), 1)]
    );
    assert_eq!(st.total_players(), 2);

    st.apply_event(ServerEvent::FreqChanged(7));
    assert_eq!(st.freq, 7);
    st.apply_event(ServerEvent::GameOver("blue".to_string()));
    assert_eq!(st.game_over, Some("blue".to_string()));
    st.apply_event(ServerEvent::MapSnapshot(vec![(1, 2), (3, 4)]));
    assert_eq!(st.player_positions, vec![(1, 2), (3, 4)]);
}

#[test]
fn dashboard_keeps_the_latest_logs() {
    let mut st = TuiState::new(&config());
    for i in 0..(MAX_LOGS + 5) {
        st.apply_event(ServerEvent::Log(format!("Executing command {}", i)));
    }
    assert_eq!(st.logs.len(), MAX_LOGS);
    assert_eq!(st.logs[0].0, "Executing command 5");
    assert_eq!(st.logs[0].1, LogColor::Yellow);
    assert_eq!(st.total_commands_executed, MAX_LOGS + 5);
    st.apply_event(ServerEvent::Log("hello".to_string()));
    assert_eq!(st.total_commands_executed, MAX_LOGS + 5);
    assert_eq!(st.logs[MAX_LOGS - 1], ("hello".to_string(), LogColor::White));
}

#[test]
fn dashboard_keys() {
    let mut st = TuiState::new(&config());
    st.apply_event(ServerEvent::Log("hello".to_string()));
    assert!(!st.on_key(Key::Char('2')));
    assert_eq!(st.active_tab, 1);
    assert!(!st.on_key(Key::Left));
    assert_eq!(st.active_tab, 0);
    assert!(!st.on_key(Key::Right));
    assert_eq!(st.active_tab, 1);
    assert!(!st.on_key(Key::Char('1')));
    assert_eq!(st.active_tab, 0);
    assert!(!st.on_key(Key::Char('x')));
    assert_eq!(st.logs.len(), 1);
    assert!(!st.on_key(Key::Char('c')));
    assert!(st.logs.is_empty());
    assert!(st.on_key(Key::Char('q')));
}
