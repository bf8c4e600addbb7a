use mazewars::maze::Difficulty;
use mazewars::protocol::{route_event, tick, InboundEvent, OutboundEvent};
use mazewars::world::{init_world, remove_player, Player, RoundState, WorldState};

fn tiny_world(open: &[(usize, usize)], players: Vec<Player>) -> WorldState {
    let mut cells = vec![1u8; 9 * 9];
    for &(x, y) in open {
        cells[y * 9 + x] = 0;
    }
    WorldState {
        map_width: 9,
        map_height: 9,
        map_cells: cells,
        spawn_x: open[0].0,
        spawn_y: open[0].1,
        players,
        round_state: RoundState::Lobby,
        round_seconds: 5,
        difficulty_idx: 0,
    }
}

#[test]
fn hello_registers_and_replies_in_order() {
    let mut world = init_world(Difficulty::Medium);
    let mut out = Vec::new();
    route_event(&mut world, 42, InboundEvent::Hello { name: "Bob".to_string() }, &mut out);
    assert_eq!(world.players.len(), 1);
    assert_eq!(world.players[0].id, 42);
    assert_eq!(out.len(), 4);
    match &out[0].event {
        OutboundEvent::Welcome { message, client_id } => {
            assert_eq!(message, "Welcome, Bob!");
            assert_eq!(*client_id, 42);
        }
        _ => panic!("expected Welcome first"),
    }
    assert_eq!(out[0].to, Some(42));
    match &out[1].event {
        OutboundEvent::MapData { width, height, cells } => {
            assert_eq!((*width, *height), (41, 31));
            assert_eq!(*cells, world.map_cells);
        }
        _ => panic!("expected a Map snapshot second"),
    }
    match &out[2].event {
        OutboundEvent::PlayerInit { id, x, y } => {
            assert_eq!(*id, 42);
            assert_eq!((*x, *y), (world.players[0].x, world.players[0].y));
        }
        _ => panic!("expected PlayerInit third"),
    }
    match &out[3].event {
        OutboundEvent::Players { players } => assert_eq!(players.len(), 1),
        _ => panic!("expected a Players broadcast last"),
    }
    assert_eq!(out[3].to, None);
}

#[test]
fn hello_twice_keeps_one_player_but_resends_everything() {
    let mut world = init_world(Difficulty::Medium);
    let mut out = Vec::new();
    route_event(&mut world, 7, InboundEvent::Hello { name: "A".to_string() }, &mut out);
    let pos = (world.players[0].x, world.players[0].y);
    route_event(&mut world, 7, InboundEvent::Hello { name: "A".to_string() }, &mut out);
    assert_eq!(world.players.len(), 1);
    assert_eq!((world.players[0].x, world.players[0].y), pos);
    assert_eq!(out.len(), 8);
    assert!(matches!(out[4].event, OutboundEvent::Welcome { .. }));
    assert!(matches!(out[5].event, OutboundEvent::MapData { .. }));
    assert!(matches!(out[6].event, OutboundEvent::PlayerInit { .. }));
    assert!(matches!(out[7].event, OutboundEvent::Players { .. }));
}

#[test]
fn input_into_wall_is_dropped_silently() {
    // player at (5,5), cell (6,5) is a wall: the move must not happen and
    // nothing may be broadcast
    let mut world = tiny_world(&[(5, 5), (1, 1)], vec![Player { id: 3, x: 5, y: 5 }]);
    let mut out = Vec::new();
    route_event(&mut world, 3, InboundEvent::Input { dx: 1, dy: 0 }, &mut out);
    assert_eq!((world.players[0].x, world.players[0].y), (5, 5));
    assert!(out.is_empty());
}

#[test]
fn input_to_open_cell_moves_and_broadcasts() {
    let mut world = tiny_world(
        &[(5, 5), (6, 5), (1, 1)],
        vec![Player { id: 3, x: 5, y: 5 }],
    );
    let mut out = Vec::new();
    route_event(&mut world, 3, InboundEvent::Input { dx: 1, dy: 0 }, &mut out);
    assert_eq!((world.players[0].x, world.players[0].y), (6, 5));
    assert_eq!(out.len(), 1);
    match &out[0].event {
        OutboundEvent::Players { players } => {
            assert_eq!(players.len(), 1);
            assert_eq!((players[0].x, players[0].y), (6, 5));
        }
        _ => panic!("expected a Players broadcast"),
    }
}

#[test]
fn input_from_unknown_client_is_dropped() {
    let mut world = tiny_world(&[(5, 5), (1, 1)], vec![Player { id: 3, x: 5, y: 5 }]);
    let mut out = Vec::new();
    route_event(&mut world, 99, InboundEvent::Input { dx: 0, dy: -1 }, &mut out);
    assert_eq!((world.players[0].x, world.players[0].y), (5, 5));
    assert!(out.is_empty());
}

#[test]
fn input_out_of_bounds_is_dropped() {
    let mut world = tiny_world(&[(5, 5), (1, 1)], vec![Player { id: 3, x: 5, y: 5 }]);
    let mut out = Vec::new();
    route_event(&mut world, 3, InboundEvent::Input { dx: 100, dy: 0 }, &mut out);
    assert_eq!((world.players[0].x, world.players[0].y), (5, 5));
    assert!(out.is_empty());
}

#[test]
fn tick_routes_before_advancing_rounds() {
    let mut world = init_world(Difficulty::Medium);
    let inbound = vec![(11u64, InboundEvent::Hello { name: "C".to_string() })];
    let out = tick(&mut world, 5000, inbound);
    // four Hello replies, then the Lobby -> InRound Round broadcast
    assert_eq!(out.len(), 5);
    assert!(matches!(out[0].event, OutboundEvent::Welcome { .. }));
    assert!(matches!(out[4].event, OutboundEvent::Round { .. }));
    assert_eq!(world.round_state, RoundState::InRound);
    assert_eq!(world.players.len(), 1);
}

#[test]
fn hello_keeps_ids_sorted() {
    let mut world = init_world(Difficulty::Medium);
    let mut out = Vec::new();
    for id in [9u64, 2, 5] {
        route_event(&mut world, id, InboundEvent::Hello { name: "x".to_string() }, &mut out);
    }
    let ids: Vec<u64> = world.players.iter().map(|p| p.id).collect();
    assert_eq!(ids, vec![2, 5, 9]);
}

#[test]
fn disconnect_removes_only_that_player() {
    let mut world = init_world(Difficulty::Medium);
    let mut out = Vec::new();
    route_event(&mut world, 1, InboundEvent::Hello { name: "a".to_string() }, &mut out);
    route_event(&mut world, 2, InboundEvent::Hello { name: "b".to_string() }, &mut out);
    remove_player(&mut world, 1);
    assert_eq!(world.players.len(), 1);
    assert_eq!(world.players[0].id, 2);
    // removing an unknown id is a no-op
    remove_player(&mut world, 77);
    assert_eq!(world.players.len(), 1);
}
