use mazewars::maze::Difficulty;
use mazewars::protocol::{tick, Outbound, OutboundEvent};
use mazewars::world::{init_world, RoundState};

#[test]
fn initial_world_state() {
    let world = init_world(Difficulty::Medium);
    assert_eq!(world.map_width, 41);
    assert_eq!(world.map_height, 31);
    assert_eq!(world.round_state, RoundState::Lobby);
    assert_eq!(world.round_seconds, 5);
    assert_eq!(world.difficulty_idx, 1);
    assert!(world.players.is_empty());
}

#[test]
fn round_cycle_visits_each_state_once_in_forty_seconds() {
    // Lobby (5s) -> InRound (30s) -> Intermission (5s) -> Lobby, difficulty 1
    let mut world = init_world(Difficulty::Easy);
    assert_eq!(world.difficulty_idx, 0);
    let mut visited = vec![world.round_state];
    for _ in 0..40 {
        let _ = tick(&mut world, 1000, Vec::new());
        if *visited.last().unwrap() != world.round_state {
            visited.push(world.round_state);
        }
    }
    assert_eq!(
        visited,
        vec![
            RoundState::Lobby,
            RoundState::InRound,
            RoundState::Intermission,
            RoundState::Lobby
        ]
    );
    assert_eq!(world.difficulty_idx, 1);
    assert_eq!(world.round_seconds, 5);
}

#[test]
fn countdown_uses_ceiling_of_elapsed_seconds() {
    let mut world = init_world(Difficulty::Medium);
    // 1500 ms charges 2 whole seconds
    let _ = tick(&mut world, 1500, Vec::new());
    assert_eq!(world.round_seconds, 3);
    // zero elapsed time changes nothing
    let _ = tick(&mut world, 0, Vec::new());
    assert_eq!(world.round_seconds, 3);
}

#[test]
fn one_transition_per_tick_even_after_long_stall() {
    let mut world = init_world(Difficulty::Medium);
    // one enormous tick still advances only Lobby -> InRound
    let _ = tick(&mut world, 3_600_000, Vec::new());
    assert_eq!(world.round_state, RoundState::InRound);
    assert_eq!(world.round_seconds, 30);
}

#[test]
fn transition_broadcasts_round_event() {
    let mut world = init_world(Difficulty::Medium);
    let out = tick(&mut world, 5000, Vec::new());
    assert_eq!(out.len(), 1);
    let Outbound { to, event } = &out[0];
    assert_eq!(*to, None);
    match event {
        OutboundEvent::Round { state, difficulty_idx, remaining } => {
            assert_eq!(*state, RoundState::InRound);
            assert_eq!(*difficulty_idx, 1);
            assert_eq!(*remaining, 30);
        }
        _ => panic!("expected a Round broadcast"),
    }
}

#[test]
fn regeneration_broadcasts_map_players_round() {
    let mut world = init_world(Difficulty::Medium);
    let _ = tick(&mut world, 5000, Vec::new()); // -> InRound
    let _ = tick(&mut world, 30000, Vec::new()); // -> Intermission
    let out = tick(&mut world, 5000, Vec::new()); // -> regenerate, Lobby
    assert_eq!(world.round_state, RoundState::Lobby);
    assert_eq!(world.difficulty_idx, 2);
    assert_eq!(out.len(), 3);
    assert!(matches!(out[0].event, OutboundEvent::MapData { .. }));
    assert!(matches!(out[1].event, OutboundEvent::Players { .. }));
    match &out[2].event {
        OutboundEvent::Round { state, difficulty_idx, remaining } => {
            assert_eq!(*state, RoundState::Lobby);
            assert_eq!(*difficulty_idx, 2);
            assert_eq!(*remaining, 5);
        }
        _ => panic!("expected a Round broadcast"),
    }
    // the broadcast map matches the regenerated world
    match &out[0].event {
        OutboundEvent::MapData { width, height, cells } => {
            assert_eq!(*width, 41);
            assert_eq!(*height, 31);
            assert_eq!(*cells, world.map_cells);
        }
        _ => unreachable!(),
    }
}
