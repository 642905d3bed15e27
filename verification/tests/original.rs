use zappy_server::config::ServerConfig;
use zappy_server::game::commands::{execute, init};
use zappy_server::game::player::{Direction, Player};
use zappy_server::game::world::{Resource, World};
use zappy_server::gui::commands::{player, time};
use zappy_server::network::buffer::{CircularBuffer, MAX_BUFFER_SIZE};
use zappy_server::protocol::gui::GuiCommand;
use zappy_server::protocol::Command;

#[test]
fn test_player_initialization() {
    let player = Player::new(1, 5, 5, Direction::North, "Team1".to_string(), 100);

    assert_eq!(player.id, 1);
    assert_eq!(player.x, 5);
    assert_eq!(player.y, 5);
    assert_eq!(player.direction, Direction::North);
    assert_eq!(player.level, 1);
}

#[test]
fn test_food_count() {
    let mut player = Player::new(1, 0, 0, Direction::North, "T".to_string(), 100);
    assert_eq!(player.get_food_count(100), 10);

    player.add_food(100);
    assert_eq!(player.get_food_count(100), 11);
}

#[test]
fn world_test_world_creation() {
    let teams = vec!["Team1".to_string(), "Team2".to_string()];
    let world = World::new(10, 10, teams, 5, 100);

    assert_eq!(world.width, 10);
    assert_eq!(world.height, 10);
    assert_eq!(world.tiles.len(), 100);
    assert_eq!(world.team_slots_of("Team1"), Some(5));
}

#[test]
fn test_world_creation() {
    let teams = vec!["Team1".to_string(), "Team2".to_string()];
    let world = World::new(10, 10, teams, 5, 100);

    assert_eq!(world.width, 10);
    assert_eq!(world.height, 10);
    assert_eq!(world.tiles.len(), 100);
    assert_eq!(world.team_slots_of("Team1"), Some(5));
}

#[test]
fn test_resource_spawning() {
    let world = World::new(10, 10, vec!["Team1".to_string()], 2, 100);

    let mut total_food = 0;
    for tile in &world.tiles {
        total_food += tile.resources.get(Resource::Food);
    }

    assert!(total_food >= 50); // 100 * 0.5
}

#[test]
fn test_add_remove_player() {
    let mut world = World::new(10, 10, vec!["Team1".to_string()], 1, 100);

    let id = world.add_player("Team1", 100).expect("Should add player");
    assert_eq!(world.team_slots_of("Team1"), Some(0));
    assert!(world.add_player("Team1", 100).is_none());

    world.remove_player(id);
    assert_eq!(world.team_slots_of("Team1"), Some(1));
}

#[test]
fn world_test_resource_spawning() {
    let world = World::new(10, 10, vec!["Team1".to_string()], 2, 100);

    let mut total_food = 0;
    for tile in &world.tiles {
        total_food += tile.resources.get(Resource::Food);
    }

    assert!(total_food >= 50); // 100 * 0.5
}

#[test]
fn world_test_add_remove_player() {
    let mut world = World::new(10, 10, vec!["Team1".to_string()], 1, 100);

    let id = world.add_player("Team1", 100).expect("Should add player");
    assert_eq!(world.team_slots_of("Team1"), Some(0));
    assert!(world.add_player("Team1", 100).is_none());

    world.remove_player(id);
    assert_eq!(world.team_slots_of("Team1"), Some(1));
}

#[test]
fn test_push_and_extract_line() {
    let mut buffer = CircularBuffer::new();
    buffer.push(b"hello\nworld\npartial");

    assert_eq!(buffer.extract_line(), Some("hello".to_string()));
    assert_eq!(buffer.extract_line(), Some("world".to_string()));
    assert_eq!(buffer.extract_line(), None);
}

#[test]
fn test_push_overflow() {
    let mut buffer = CircularBuffer::new();
    let large_data = vec![0u8; MAX_BUFFER_SIZE];

    assert!(buffer.push(&large_data));
    assert!(!buffer.push(b"extra"));
}

#[test]
fn test_extract_line_with_carriage_return() {
    let mut buffer = CircularBuffer::new();
    buffer.push(b"command\r\n");
    assert_eq!(buffer.extract_line(), Some("command".to_string()));
}

fn setup_world_config() -> (World, ServerConfig) {
    let config = ServerConfig {
        port: 4242,
        width: 5,
        height: 5,
        teams: vec!["TeamA".to_string(), "TeamB".to_string()],
        clients_nb: 10,
        freq: 100,
        bonus: false,
    };
    let world = World::new(config.width, config.height, config.teams.clone(), config.clients_nb, config.freq);
    (world, config)
}

#[test]
fn test_map_size_command() {
    let (world, config) = setup_world_config();
    let res = zappy_server::gui::commands::map::execute(GuiCommand::MapSize, &world, &config);
    assert_eq!(res.len(), 1);
    assert_eq!(res[0], "msz 5 5\n");
}

#[test]
fn test_team_names_command() {
    let (world, config) = setup_world_config();
    let res = zappy_server::gui::commands::map::execute(GuiCommand::TeamNames, &world, &config);
    assert_eq!(res.len(), 2);
    assert_eq!(res[0], "tna TeamA\n");
    assert_eq!(res[1], "tna TeamB\n");
}

#[test]
fn test_tile_content_command() {
    let (world, config) = setup_world_config();
    let res = zappy_server::gui::commands::map::execute(GuiCommand::TileContent(0, 0), &world, &config);
    assert_eq!(res.len(), 1);
    assert!(res[0].starts_with("bct 0 0"));

    let res_out_of_bounds = zappy_server::gui::commands::map::execute(GuiCommand::TileContent(10, 10), &world, &config);
    assert_eq!(res_out_of_bounds.len(), 1);
    assert_eq!(res_out_of_bounds[0], "sbp\n");
}

#[test]
fn test_time_commands() {
    let mut config = ServerConfig {
        port: 4242,
        width: 10,
        height: 10,
        teams: vec!["TeamA".to_string()],
        clients_nb: 5,
        freq: 100,
        bonus: false,
    };
    let mut world = World::new(config.width, config.height, config.teams.clone(), config.clients_nb, config.freq);

    let res_sgt = time::execute(GuiCommand::TimeRequest, &mut world, &mut config);
    assert_eq!(res_sgt.len(), 1);
    assert_eq!(res_sgt[0], "sgt 100\n");

    let res_sst = time::execute(GuiCommand::TimeUpdate(200), &mut world, &mut config);
    assert_eq!(res_sst.len(), 1);
    assert_eq!(res_sst[0], "sst 200\n");
    assert_eq!(config.freq, 200);
    assert_eq!(world.freq, 200);
}

#[test]
fn test_parse_gui_commands() {
    assert!(matches!(GuiCommand::from_str("msz"), Some(GuiCommand::MapSize)));
    assert!(matches!(GuiCommand::from_str("mct"), Some(GuiCommand::MapContent)));
    assert!(matches!(GuiCommand::from_str("tna"), Some(GuiCommand::TeamNames)));
    assert!(matches!(GuiCommand::from_str("sgt"), Some(GuiCommand::TimeRequest)));

    if let Some(GuiCommand::TileContent(x, y)) = GuiCommand::from_str("bct 5 10") {
        assert_eq!(x, 5);
        assert_eq!(y, 10);
    } else {
        panic!("Failed to parse bct");
    }

    if let Some(GuiCommand::PlayerPosition(id)) = GuiCommand::from_str("ppo #42") {
        assert_eq!(id, 42);
    } else {
        panic!("Failed to parse ppo");
    }

    if let Some(GuiCommand::PlayerLevel(id)) = GuiCommand::from_str("plv #42") {
        assert_eq!(id, 42);
    } else {
        panic!("Failed to parse plv");
    }

    if let Some(GuiCommand::PlayerInventory(id)) = GuiCommand::from_str("pin #42") {
        assert_eq!(id, 42);
    } else {
        panic!("Failed to parse pin");
    }

    if let Some(GuiCommand::TimeUpdate(t)) = GuiCommand::from_str("sst 150") {
        assert_eq!(t, 150);
    } else {
        panic!("Failed to parse sst");
    }

    // Invalid commands
    assert!(GuiCommand::from_str("unknown").is_none());
    assert!(GuiCommand::from_str("bct 5").is_none()); // Missing Y
    assert!(GuiCommand::from_str("ppo #abc").is_none()); // Not a number
}

#[test]
fn test_connect_nbr_dispatch() {
    let mut world = World::new(10, 10, vec!["Team1".to_string()], 5, 100);
    let player_id = world.add_player("Team1", 100).unwrap();

    let immediate = init(&Command::ConnectNbr, player_id, &mut world);
    let final_res = execute(Command::ConnectNbr, player_id, &mut world);

    assert!(immediate.is_none());
    assert_eq!(final_res, "4\n"); // 5 - 1
}

#[test]
fn test_incantation_immediate_dispatch() {
    let mut world = World::new(10, 10, vec!["Team1".to_string()], 5, 100);
    let player_id = world.add_player("Team1", 100).unwrap();

    let (x, y) = {
        let i = world.find_player(player_id).unwrap();
        let player = &world.players[i];
        (player.x, player.y)
    };
    world.get_tile_mut(x, y).resources.set(Resource::Linemate, 1);

    let immediate = init(&Command::Incantation, player_id, &mut world);

    assert_eq!(immediate, Some("Elevation underway\n".to_string()));
}

#[test]
fn test_player_info_commands() {
    let mut world = World::new(10, 10, vec!["TeamA".to_string()], 5, 100);
    let player_id = world.add_player("TeamA", 100).unwrap();

    // ppo
    let res_ppo = player::execute(GuiCommand::PlayerPosition(player_id), &world);
    assert_eq!(res_ppo.len(), 1);
    assert!(res_ppo[0].starts_with(&format!("ppo #{}", player_id)));

    // plv
    let res_plv = player::execute(GuiCommand::PlayerLevel(player_id), &world);
    assert_eq!(res_plv.len(), 1);
    assert_eq!(res_plv[0], format!("plv #{} 1\n", player_id));

    // pin
    let res_pin = player::execute(GuiCommand::PlayerInventory(player_id), &world);
    assert_eq!(res_pin.len(), 1);
    assert!(res_pin[0].starts_with(&format!("pin #{}", player_id)));

    // Invalid player
    let res_invalid = player::execute(GuiCommand::PlayerLevel(999), &world);
    assert_eq!(res_invalid[0], "sbp\n");
}
