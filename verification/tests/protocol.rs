use zappy_server::config::ServerConfig;
use zappy_server::game::world::World;
use zappy_server::protocol::Command;

#[test]
fn commands_are_parsed_by_their_first_word() {
    assert!(matches!(Command::from_str("Forward"), Some(Command::Forward)));
    assert!(matches!(Command::from_str("  Right  "), Some(Command::Right)));
    assert!(matches!(Command::from_str("Left"), Some(Command::Left)));
    assert!(matches!(Command::from_str("Look"), Some(Command::Look)));
    assert!(matches!(Command::from_str("Inventory"), Some(Command::Inventory)));
    assert!(matches!(Command::from_str("Connect_nbr"), Some(Command::ConnectNbr)));
    assert!(matches!(Command::from_str("Fork"), Some(Command::Fork)));
    assert!(matches!(Command::from_str("Eject"), Some(Command::Eject)));
    assert!(matches!(Command::from_str("Incantation"), Some(Command::Incantation)));
    assert!(matches!(Command::from_str("Take food"), Some(Command::Take(o)) if o == "food"));
    assert!(matches!(Command::from_str("Set linemate extra"), Some(Command::SetObject(o)) if o == "linemate"));
}

#[test]
fn broadcast_joins_its_words_with_single_spaces() {
    assert!(matches!(
        Command::from_str("Broadcast  hi   there "),
        Some(Command::Broadcast(t)) if t == "hi there"
    ));
    assert!(matches!(Command::from_str("Broadcast one"), Some(Command::Broadcast(t)) if t == "one"));
}

#[test]
fn malformed_commands_are_refused() {
    assert!(Command::from_str("").is_none());
    assert!(Command::from_str("forward").is_none());
    assert!(Command::from_str("Take").is_none());
    assert!(Command::from_str("Set").is_none());
    assert!(Command::from_str("Broadcast").is_none());
    assert!(Command::from_str("Jump").is_none());
}

#[test]
fn command_durations() {
    assert_eq!(Command::Forward.duration(), 7);
    assert_eq!(Command::Inventory.duration(), 1);
    assert_eq!(Command::Fork.duration(), 42);
    assert_eq!(Command::Incantation.duration(), 300);
    assert_eq!(Command::ConnectNbr.duration(), 0);
    assert_eq!(Command::Broadcast("x".to_string()).duration(), 7);
}

#[test]
fn random_spawns_stay_on_the_map() {
    let mut world = World::new(3, 2, vec!["A".to_string()], 40, 100);
    for _ in 0..40 {
        let id = world.add_player("A", 100).unwrap();
        let i = world.find_player(id).unwrap();
        assert!(world.players[i].x < 3);
        assert!(world.players[i].y < 2);
    }
    assert!(world.add_player("A", 100).is_none());
}

#[test]
fn configuration_complaints() {
    let good = ServerConfig {
        port: 1,
        width: 2,
        height: 3,
        teams: vec!["a".to_string()],
        clients_nb: 1,
        freq: 1,
        bonus: false,
    };
    assert!(good.validate().is_empty());
    assert!(good.is_runnable());
    let bad = ServerConfig {
        port: 1,
        width: 0,
        height: 0,
        teams: vec![],
        clients_nb: 0,
        freq: 0,
        bonus: false,
    };
    assert_eq!(
        bad.validate(),
        vec![
            "Width (-x) must be greater than 0.",
            "Height (-y) must be greater than 0.",
            "Number of authorized clients per team (-c) must be greater than 0.",
            "Frequency (-f) must be greater than 0.",
            "You must provide at least one team name (-n).",
        ]
    );
    assert!(!bad.is_runnable());
    let huge = ServerConfig {
        port: 1,
        width: 70000,
        height: 70000,
        teams: vec!["a".to_string()],
        clients_nb: 1,
        freq: 1,
        bonus: false,
    };
    assert!(huge.validate().is_empty());
    assert!(!huge.is_runnable());
}
