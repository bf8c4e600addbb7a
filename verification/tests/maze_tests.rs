use mazewars::maze::{
    apply_difficulty, cell_is_open, collect_dead_ends, count_dead_ends, generate_maze,
    reduce_dead_ends, Difficulty,
};

fn open_count(cells: &Vec<u8>) -> usize {
    cells.iter().filter(|&&c| c == 0).count()
}

#[test]
fn generated_maze_has_spanning_tree_open_count() {
    // 41 x 31 has 20 x 15 logical rooms; a perfect maze knocks down exactly
    // rooms - 1 walls, so open cells = rooms + (rooms - 1).
    let grid = generate_maze(41, 31);
    assert_eq!(grid.len(), 41 * 31);
    assert_eq!(open_count(&grid), 2 * 20 * 15 - 1);
}

#[test]
fn generated_maze_smallest_grid() {
    // one room, no walls to knock down
    let grid = generate_maze(3, 3);
    assert_eq!(grid.len(), 9);
    assert_eq!(open_count(&grid), 1);
    assert_eq!(grid[1 * 3 + 1], 0);
}

#[test]
fn generated_maze_border_is_walled() {
    let (w, h) = (21usize, 13usize);
    let grid = generate_maze(w, h);
    for x in 0..w {
        assert_eq!(grid[x], 1);
        assert_eq!(grid[(h - 1) * w + x], 1);
    }
    for y in 0..h {
        assert_eq!(grid[y * w], 1);
        assert_eq!(grid[y * w + (w - 1)], 1);
    }
}

#[test]
fn generated_maze_room_centers_open() {
    let (w, h) = (21usize, 13usize);
    let grid = generate_maze(w, h);
    for cy in 0..(h - 1) / 2 {
        for cx in 0..(w - 1) / 2 {
            assert!(cell_is_open(&grid, w, 2 * cx + 1, 2 * cy + 1));
        }
    }
}

#[test]
fn generated_maze_has_no_open_pillars() {
    // cells with two even coordinates are neither room centers nor wall
    // slots, so the generator leaves them walled
    let (w, h) = (21usize, 13usize);
    let grid = generate_maze(w, h);
    for y in (0..h).step_by(2) {
        for x in (0..w).step_by(2) {
            assert_eq!(grid[y * w + x], 1);
        }
    }
}

#[test]
fn dead_end_list_is_ordered_and_distinct() {
    let (w, h) = (21usize, 21usize);
    let grid = generate_maze(w, h);
    let de = collect_dead_ends(&grid, w, h);
    assert_eq!(de.len(), count_dead_ends(&grid, w, h));
    for i in 1..de.len() {
        let (ax, ay) = de[i - 1];
        let (bx, by) = de[i];
        assert!(ay < by || (ay == by && ax < bx));
    }
}

#[test]
fn shaping_opens_at_least_one_wall_when_due() {
    // a fresh maze has dead ends, so a 50 percent pass must do real work
    let (w, h) = (41usize, 31usize);
    let mut grid = generate_maze(w, h);
    let before = grid.iter().filter(|&&c| c == 0).count();
    assert!(count_dead_ends(&grid, w, h) >= 2);
    reduce_dead_ends(&mut grid, w, h, 50);
    assert!(grid.iter().filter(|&&c| c == 0).count() > before);
}

#[test]
fn shaping_never_closes_cells() {
    let (w, h) = (41usize, 31usize);
    let grid = generate_maze(w, h);
    let mut shaped = grid.clone();
    reduce_dead_ends(&mut shaped, w, h, 50);
    for i in 0..grid.len() {
        if grid[i] == 0 {
            assert_eq!(shaped[i], 0);
        }
    }
    assert!(open_count(&shaped) >= open_count(&grid));
}

#[test]
fn shaping_easy_halves_dead_ends() {
    // ratio 0.5: floor(count / 2) removal rounds, each removing one dead end
    // and creating at most one
    let (w, h) = (41usize, 31usize);
    let mut grid = generate_maze(w, h);
    let before = count_dead_ends(&grid, w, h) as i64;
    let target = before / 2;
    reduce_dead_ends(&mut grid, w, h, 50);
    let after = count_dead_ends(&grid, w, h) as i64;
    assert!(after <= before);
    assert!((after - (before - target)).abs() <= target);
}

#[test]
fn shaping_bounds_open_growth() {
    let (w, h) = (41usize, 31usize);
    let mut grid = generate_maze(w, h);
    let before_open = open_count(&grid);
    let dead_ends = count_dead_ends(&grid, w, h);
    reduce_dead_ends(&mut grid, w, h, 20);
    assert!(open_count(&grid) <= before_open + dead_ends * 20 / 100);
}

#[test]
fn hard_difficulty_leaves_maze_untouched() {
    let (w, h) = (21usize, 21usize);
    let grid = generate_maze(w, h);
    let mut shaped = grid.clone();
    apply_difficulty(&mut shaped, w, h, Difficulty::Hard);
    assert_eq!(shaped, grid);
}

#[test]
fn easy_difficulty_opens_cells() {
    let (w, h) = (41usize, 31usize);
    let grid = generate_maze(w, h);
    let mut shaped = grid.clone();
    apply_difficulty(&mut shaped, w, h, Difficulty::Easy);
    let dead_ends = count_dead_ends(&grid, w, h);
    assert!(open_count(&shaped) <= open_count(&grid) + dead_ends * 50 / 100);
    assert!(open_count(&shaped) >= open_count(&grid));
}
