use mazewars::maze::generate_maze;
use mazewars::spawn::{allocate_unique_spawns_for_all, find_spawn, find_unused_spawn, is_occupied};
use mazewars::world::{Player, RoundState, WorldState};

/// A hand-made 9 x 9 grid: everything walled except a few chosen cells.
fn tiny_grid(open: &[(usize, usize)]) -> Vec<u8> {
    let mut cells = vec![1u8; 9 * 9];
    for &(x, y) in open {
        cells[y * 9 + x] = 0;
    }
    cells
}

fn tiny_world(open: &[(usize, usize)], players: Vec<Player>) -> WorldState {
    WorldState {
        map_width: 9,
        map_height: 9,
        map_cells: tiny_grid(open),
        spawn_x: open[0].0,
        spawn_y: open[0].1,
        players,
        round_state: RoundState::Lobby,
        round_seconds: 5,
        difficulty_idx: 0,
    }
}

#[test]
fn find_spawn_picks_center_most_open_cell() {
    // the grid center is (4, 4); the only open cell near it wins
    let cells = tiny_grid(&[(4, 4), (1, 1)]);
    assert_eq!(find_spawn(&cells, 9, 9), (4, 4));
}

#[test]
fn find_spawn_prefers_row_major_on_equal_rings() {
    // both cells sit on the radius-1 ring around (4, 4) in the same row;
    // the scan is row-major within a ring, so the leftmost wins
    let cells = tiny_grid(&[(3, 3), (5, 3)]);
    assert_eq!(find_spawn(&cells, 9, 9), (3, 3));
}

#[test]
fn reallocation_sends_overflow_ranks_to_fallback() {
    // two open cells, three players: the two lowest ids take the cells in
    // scan order, the third lands on the fixed fallback (1, 1)
    let cells = tiny_grid(&[(4, 4), (3, 4)]);
    let mut players = vec![
        Player { id: 1, x: 0, y: 0 },
        Player { id: 2, x: 0, y: 0 },
        Player { id: 3, x: 0, y: 0 },
    ];
    allocate_unique_spawns_for_all(&mut players, &cells, 9, 9);
    assert_eq!((players[0].x, players[0].y), (4, 4));
    assert_eq!((players[1].x, players[1].y), (3, 4));
    assert_eq!((players[2].x, players[2].y), (1, 1));
}

#[test]
fn find_spawn_falls_back_on_full_walls() {
    let cells = vec![1u8; 9 * 9];
    assert_eq!(find_spawn(&cells, 9, 9), (1, 1));
}

#[test]
fn unused_spawn_skips_occupied_cells() {
    let world = tiny_world(
        &[(4, 4), (3, 4), (1, 1)],
        vec![Player { id: 1, x: 4, y: 4 }],
    );
    let (x, y) = find_unused_spawn(&world);
    assert_eq!((x, y), (3, 4));
    assert!(!is_occupied(&world.players, x, y));
}

#[test]
fn unused_spawn_falls_back_to_fixed_cell() {
    // every open cell is occupied, so the fixed fallback (1, 1) is reused
    let world = tiny_world(
        &[(4, 4), (1, 1)],
        vec![Player { id: 1, x: 1, y: 1 }, Player { id: 2, x: 4, y: 4 }],
    );
    assert_eq!(find_unused_spawn(&world), (1, 1));
}

#[test]
fn reallocation_gives_distinct_open_cells() {
    let (w, h) = (41usize, 31usize);
    let cells = generate_maze(w, h);
    let mut players: Vec<Player> = (0..10).map(|i| Player { id: i, x: 0, y: 0 }).collect();
    allocate_unique_spawns_for_all(&mut players, &cells, w, h);
    for i in 0..players.len() {
        assert_eq!(players[i].id, i as u64);
        assert_eq!(cells[players[i].y * w + players[i].x], 0);
        for j in 0..i {
            assert!((players[i].x, players[i].y) != (players[j].x, players[j].y));
        }
    }
}

#[test]
fn reallocation_with_no_players_is_a_noop() {
    let cells = generate_maze(3, 3);
    let mut players: Vec<Player> = Vec::new();
    allocate_unique_spawns_for_all(&mut players, &cells, 3, 3);
    assert!(players.is_empty());
}

#[test]
fn reallocation_on_smallest_maze() {
    // the 3 x 3 maze has exactly one open cell, at (1, 1)
    let cells = generate_maze(3, 3);
    let mut players = vec![Player { id: 8, x: 0, y: 0 }];
    allocate_unique_spawns_for_all(&mut players, &cells, 3, 3);
    assert_eq!((players[0].x, players[0].y), (1, 1));
}

#[test]
fn reallocation_keeps_ids_in_order() {
    let (w, h) = (9usize, 9usize);
    let cells = tiny_grid(&[(4, 4), (3, 4), (5, 4)]);
    let mut players = vec![
        Player { id: 2, x: 0, y: 0 },
        Player { id: 5, x: 0, y: 0 },
        Player { id: 9, x: 0, y: 0 },
    ];
    allocate_unique_spawns_for_all(&mut players, &cells, w, h);
    assert_eq!(players[0].id, 2);
    assert_eq!(players[1].id, 5);
    assert_eq!(players[2].id, 9);
    // three players, three open cells: all distinct and open
    for i in 0..3 {
        assert_eq!(cells[players[i].y * w + players[i].x], 0);
        for j in 0..i {
            assert!((players[i].x, players[i].y) != (players[j].x, players[j].y));
        }
    }
}
