use zappy_server::game::commands::interaction::execute_at;
use zappy_server::game::commands::{compute_direction, step};
use zappy_server::protocol::gui::GuiCommand;
use zappy_server::protocol::Command;
use zappy_server::game::player::{time_units_to_nanos, Direction, Player};
use zappy_server::config::ServerConfig;
use zappy_server::game::world::{Egg, Resource, World};
use zappy_server::gui::commands::time;
use zappy_server::network::buffer::{BufferError, CircularBuffer, MAX_BUFFER_SIZE};

#[test]
fn turning_right_then_left_is_no_turn() {
    for d in [Direction::North, Direction::East, Direction::South, Direction::West] {
        assert_eq!(d.turn_right().turn_left(), d);
        assert_eq!(d.turn_left().turn_right(), d);
        assert_eq!(d.turn_right().turn_right().turn_right().turn_right(), d);
    }
    assert_eq!(Direction::North.turn_right(), Direction::East);
    assert_eq!(Direction::North.turn_left(), Direction::West);
}

#[test]
fn steps_wrap_around_the_torus() {
    assert_eq!(step(0, 0, Direction::North, 5, 4), (0, 3));
    assert_eq!(step(4, 2, Direction::East, 5, 4), (0, 2));
    assert_eq!(step(2, 3, Direction::South, 5, 4), (2, 0));
    assert_eq!(step(0, 1, Direction::West, 5, 4), (4, 1));
    assert_eq!(step(2, 1, Direction::North, 5, 4), (2, 0));
}

#[test]
fn sound_from_the_same_tile_is_zero() {
    assert_eq!(compute_direction(3, 3, Direction::East, 3, 3, 10, 10), 0);
}

#[test]
fn sound_from_the_front_is_one() {
    // The source is just north of a receiver facing north.
    assert_eq!(compute_direction(5, 5, Direction::North, 5, 4, 10, 10), 1);
    // Across the edge of the torus.
    assert_eq!(compute_direction(5, 0, Direction::North, 5, 9, 10, 10), 1);
    // Sectors are numbered clockwise from the front: east of a receiver
    // facing north is 3, and 1 for a receiver facing east.
    assert_eq!(compute_direction(5, 5, Direction::North, 6, 5, 10, 10), 3);
    assert_eq!(compute_direction(5, 5, Direction::East, 6, 5, 10, 10), 1);
    // Diagonal: north-east of a receiver facing north.
    assert_eq!(compute_direction(5, 5, Direction::North, 6, 4, 10, 10), 2);
}

#[test]
fn the_tile_in_front_is_always_one() {
    let (w, h) = (4u32, 3u32);
    for d in [Direction::North, Direction::East, Direction::South, Direction::West] {
        for x in 0..w {
            for y in 0..h {
                let (fx, fy) = step(x, y, d, w, h);
                assert_eq!(
                    compute_direction(x as i32, y as i32, d, fx as i32, fy as i32, w as i32, h as i32),
                    1
                );
            }
        }
    }
}

#[test]
fn food_taken_then_dropped_restores_the_time_of_death() {
    let mut p = Player::new_at(1, 0, 0, Direction::North, "T".to_string(), 100, 1_000);
    let before = p.death_time;
    p.add_food(100);
    assert_eq!(p.death_time, before + 1_260_000_000);
    p.remove_food(100);
    assert_eq!(p.death_time, before);
}

#[test]
fn new_player_lives_1260_time_units() {
    let p = Player::new_at(1, 0, 0, Direction::North, "T".to_string(), 100, 5);
    assert_eq!(p.death_time, 5 + 12_600_000_000);
    assert_eq!(p.food_count_at(100, 5), 10);
    assert_eq!(p.food_count_at(100, 5 + 1_260_000_000), 9);
    assert_eq!(p.food_count_at(100, 5 + 1_260_000_001), 9);
    assert_eq!(p.food_count_at(100, 5 + 12_600_000_000), 0);
}

#[test]
fn time_units_scale_with_frequency() {
    assert_eq!(time_units_to_nanos(7, 100), 70_000_000);
    assert_eq!(time_units_to_nanos(300, 1), 300_000_000_000);
    assert_eq!(time_units_to_nanos(1, 3), 333_333_333);
}

#[test]
fn leaving_player_refunds_its_slot() {
    let mut world = World::new(6, 6, vec!["A".to_string(), "B".to_string()], 2, 100);
    let id = world.add_player_at("A", 100, 0, 1, 1, Direction::South).unwrap();
    assert_eq!(world.team_slots_of("A"), Some(1));
    assert_eq!(world.team_slots_of("B"), Some(2));
    world.remove_player(id);
    assert_eq!(world.team_slots_of("A"), Some(2));
    assert_eq!(world.team_slots_of("B"), Some(2));
    assert!(world.find_player(id).is_none());
}

#[test]
fn new_world_holds_exactly_the_target_quantities() {
    let world = World::new(10, 10, vec!["A".to_string()], 1, 100);
    assert_eq!(world.total_quantity(Resource::Food), 50);
    assert_eq!(world.total_quantity(Resource::Linemate), 30);
    assert_eq!(world.total_quantity(Resource::Deraumere), 15);
    assert_eq!(world.total_quantity(Resource::Sibur), 10);
    assert_eq!(world.total_quantity(Resource::Mendiane), 10);
    assert_eq!(world.total_quantity(Resource::Phiras), 8);
    assert_eq!(world.total_quantity(Resource::Thystame), 5);
}

#[test]
fn spawning_again_adds_nothing_to_a_full_map() {
    let mut world = World::new(3, 7, vec!["A".to_string()], 1, 100);
    world.spawn_resources();
    // ceil(21 * 0.5) = 11 and ceil(21 * 0.05) = 2.
    assert_eq!(world.total_quantity(Resource::Food), 11);
    assert_eq!(world.total_quantity(Resource::Thystame), 2);
}

#[test]
fn a_written_line_is_read_back() {
    let mut buffer = CircularBuffer::new();
    assert_eq!(buffer.read_from(b"Take food\nrest"), Ok(14));
    assert_eq!(buffer.extract_line(), Some("Take food".to_string()));
    assert_eq!(buffer.front_bytes(), b"rest".to_vec());
    assert_eq!(buffer.extract_line(), None);
    assert_eq!(buffer.len(), 4);
}

#[test]
fn invalid_utf8_is_replaced() {
    let mut buffer = CircularBuffer::new();
    buffer.push(&[0x66, 0xff, 0x6f, b'\n']);
    assert_eq!(buffer.extract_line(), Some("f\u{fffd}o".to_string()));
    assert!(buffer.is_empty());
}

#[test]
fn full_buffer_refuses_reads() {
    let mut buffer = CircularBuffer::new();
    assert!(buffer.push(&vec![b'a'; MAX_BUFFER_SIZE - 1]));
    assert_eq!(buffer.read_from(b"xy"), Err(BufferError::OutOfMemory));
    assert_eq!(buffer.len(), MAX_BUFFER_SIZE - 1);
    assert_eq!(buffer.read_from(b""), Ok(0));
    assert_eq!(buffer.read_from(b"z"), Ok(1));
    assert_eq!(buffer.len(), MAX_BUFFER_SIZE);
}

#[test]
fn written_bytes_leave_the_buffer() {
    let mut buffer = CircularBuffer::new();
    buffer.push(b"abcdef");
    assert_eq!(buffer.write_to(4), 4);
    assert_eq!(buffer.front_bytes(), b"ef".to_vec());
    assert_eq!(buffer.write_to(10), 2);
    assert!(buffer.is_empty());
}

#[test]
fn a_valid_utf8_line_reads_back_as_its_text() {
    let mut buffer = CircularBuffer::new();
    buffer.push("Broadcast héllo wörld\nnext".as_bytes());
    assert_eq!(buffer.extract_line(), Some("Broadcast héllo wörld".to_string()));
    assert_eq!(buffer.front_bytes(), b"next".to_vec());
}

#[test]
fn food_never_grows_with_time() {
    let p = Player::new_at(1, 0, 0, Direction::North, "T".to_string(), 7, 0);
    let mut last = p.food_count_at(7, 0);
    for step in 1..200u64 {
        let now = step * 1_000_000_000;
        let f = p.food_count_at(7, now);
        assert!(f <= last);
        last = f;
    }
    assert_eq!(last, 0);
}

#[test]
fn printed_gui_requests_read_back() {
    for (x, y) in [(0u32, 0u32), (7, 42), (u32::MAX, 1)] {
        assert_eq!(GuiCommand::from_str(&format!("bct {} {}", x, y)), Some(GuiCommand::TileContent(x, y)));
    }
    for n in [0usize, 5, usize::MAX] {
        assert_eq!(GuiCommand::from_str(&format!("ppo #{}", n)), Some(GuiCommand::PlayerPosition(n)));
        assert_eq!(GuiCommand::from_str(&format!("plv #{}", n)), Some(GuiCommand::PlayerLevel(n)));
        assert_eq!(GuiCommand::from_str(&format!("pin #{}", n)), Some(GuiCommand::PlayerInventory(n)));
    }
    assert_eq!(GuiCommand::from_str(&format!("sst {}", 150)), Some(GuiCommand::TimeUpdate(150)));
    assert_eq!(GuiCommand::from_str("   "), None);
}

#[test]
fn dropping_what_was_taken_restores_tile_and_player() {
    let mut world = World::new(4, 4, vec!["A".to_string()], 2, 100);
    let id = world.add_player_at("A", 100, 0, 1, 2, Direction::North).unwrap();
    world.get_tile_mut(1, 2).resources.set(Resource::Sibur, 3);
    let tiles_before: Vec<_> = world.tiles.iter().map(|t| t.resources).collect();
    let inv_before = world.players[0].inventory;
    let death_before = world.players[0].death_time;
    assert_eq!(execute_at(Command::Take("sibur".to_string()), id, &mut world, 10), "ok\n");
    assert_eq!(world.get_tile(1, 2).resources.get(Resource::Sibur), 2);
    assert_eq!(world.players[0].inventory.get(Resource::Sibur), 1);
    assert_eq!(execute_at(Command::SetObject("sibur".to_string()), id, &mut world, 20), "ok\n");
    let tiles_after: Vec<_> = world.tiles.iter().map(|t| t.resources).collect();
    assert_eq!(tiles_after, tiles_before);
    assert_eq!(world.players[0].inventory, inv_before);
    assert_eq!(world.players[0].death_time, death_before);
}

#[test]
fn turning_right_lowers_the_sound_direction_by_two() {
    let (w, h) = (5i32, 4i32);
    for d in [Direction::North, Direction::East, Direction::South, Direction::West] {
        for (rx, ry) in [(0i32, 0i32), (2, 1), (4, 3)] {
            for sx in 0..w {
                for sy in 0..h {
                    if (rx, ry) == (sx, sy) {
                        continue;
                    }
                    let k = compute_direction(rx, ry, d, sx, sy, w, h);
                    assert_eq!(compute_direction(rx, ry, d.turn_right(), sx, sy, w, h), (k + 5) % 8 + 1);
                    assert_eq!(compute_direction(rx, ry, d.turn_left(), sx, sy, w, h), (k + 1) % 8 + 1);
                }
            }
        }
    }
    // East of a receiver facing north is 3; facing east it is 1.
    assert_eq!(compute_direction(5, 5, Direction::North, 6, 5, 10, 10), 3);
    assert_eq!(compute_direction(5, 5, Direction::East, 6, 5, 10, 10), 1);
}

#[test]
fn a_unit_of_food_adds_one_to_the_count() {
    for freq in [1u32, 7, 100, 1000] {
        for now in [0u64, 1, 999_999_999, 1_250_000_000] {
            let mut p = Player::new_at(1, 0, 0, Direction::North, "T".to_string(), freq, 0);
            let before = p.food_count_at(freq, now);
            p.add_food(freq);
            assert_eq!(p.food_count_at(freq, now), before + 1);
            assert_eq!(p.food_count_at(freq, 0), 11);
        }
    }
    // 126 s do not split into whole nanoseconds at frequency 11: the count
    // grows by at most one.
    let mut p = Player::new_at(1, 0, 0, Direction::North, "T".to_string(), 11, 0);
    let before = p.food_count_at(11, 5);
    p.add_food(11);
    let after = p.food_count_at(11, 5);
    assert!(before <= after && after <= before + 1);
}

#[test]
fn changing_the_frequency_rescales_egg_expiries() {
    let mut config = ServerConfig {
        port: 4242,
        width: 4,
        height: 4,
        teams: vec!["A".to_string()],
        clients_nb: 1,
        freq: 100,
        bonus: false,
    };
    let mut world = World::new(4, 4, vec!["A".to_string()], 1, 100);
    world.eggs.push(Egg { id: 1, x: 1, y: 2, team: "A".to_string(), death_time: 1_000_000_000 });
    world.eggs.push(Egg { id: 2, x: 0, y: 0, team: "A".to_string(), death_time: u64::MAX });
    world.eggs.push(Egg { id: 3, x: 3, y: 3, team: "A".to_string(), death_time: 100 });
    let res = time::execute_at(GuiCommand::TimeUpdate(200), &mut world, &mut config, 200);
    assert_eq!(res, vec!["sst 200\n".to_string()]);
    // Half of the remaining time is left at twice the frequency.
    assert_eq!(world.eggs[0].death_time, 200 + (1_000_000_000 - 200) / 2);
    // An egg that never expires, and one already past, stay as they were.
    assert_eq!(world.eggs[1].death_time, u64::MAX);
    assert_eq!(world.eggs[2].death_time, 100);
    assert_eq!((world.eggs[0].x, world.eggs[0].y, world.eggs[0].id), (1, 2, 1));
}
