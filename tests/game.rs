use minesweeper::{Game, GameError, RevealOutcome};

fn ordered(n: usize) -> Vec<usize> {
    (0..n).collect()
}

fn game_with_mines(rows: usize, cols: usize, mines: &[(usize, usize)]) -> Game {
    let mut order: Vec<usize> = mines.iter().map(|&(r, c)| r * cols + c).collect();
    for k in 0..rows * cols {
        if !order.contains(&k) {
            order.push(k);
        }
    }
    Game::with_order(rows, cols, mines.len(), &order)
}

fn revealed_grid(g: &Game) -> Vec<Vec<bool>> {
    (0..g.rows())
        .map(|r| (0..g.cols()).map(|c| g.is_revealed(r, c)).collect())
        .collect()
}

fn brute_force_count(g: &Game, r: usize, c: usize) -> u8 {
    let mut n = 0;
    for dr in -1i64..=1 {
        for dc in -1i64..=1 {
            if dr == 0 && dc == 0 {
                continue;
            }
            let nr = r as i64 + dr;
            let nc = c as i64 + dc;
            if nr >= 0 && nc >= 0 && (nr as usize) < g.rows() && (nc as usize) < g.cols() {
                if g.cell(nr as usize, nc as usize).is_mine {
                    n += 1;
                }
            }
        }
    }
    n
}

#[test]
fn generated_boards_have_exact_mines_and_counts() {
    for &(rows, cols, mines) in &[(1, 1, 0), (1, 2, 1), (3, 3, 8), (9, 9, 10), (5, 7, 20), (16, 30, 99)] {
        let g = Game::new(rows, cols, mines).unwrap();
        assert_eq!(g.num_mines(), mines);
        let mut seen = 0;
        for r in 0..rows {
            for c in 0..cols {
                let cell = g.cell(r, c);
                if cell.is_mine {
                    seen += 1;
                } else {
                    assert_eq!(cell.adjacent_mines, brute_force_count(&g, r, c));
                }
                assert!(!g.is_revealed(r, c));
            }
        }
        assert_eq!(seen, mines);
    }
}

#[test]
fn mines_are_placed_at_random() {
    let g = Game::new(10, 10, 50).unwrap();
    let first_half = (0..50).all(|k| g.cell(k / 10, k % 10).is_mine);
    assert!(!first_half);
}

#[test]
fn invalid_configurations_are_refused() {
    assert_eq!(Game::new(0, 3, 0).err(), Some(GameError::InvalidConfiguration));
    assert_eq!(Game::new(3, 0, 0).err(), Some(GameError::InvalidConfiguration));
    assert_eq!(Game::new(3, 3, 9).err(), Some(GameError::InvalidConfiguration));
    assert_eq!(Game::new(3, 3, 10).err(), Some(GameError::InvalidConfiguration));
    assert_eq!(Game::new(usize::MAX, 2, 0).err(), Some(GameError::InvalidConfiguration));
    assert!(Game::new(3, 3, 8).is_ok());
}

#[test]
fn order_places_mines_first() {
    let order = vec![4, 0, 8, 1, 2, 3, 5, 6, 7];
    let g = Game::with_order(3, 3, 3, &order);
    assert!(g.cell(1, 1).is_mine);
    assert!(g.cell(0, 0).is_mine);
    assert!(g.cell(2, 2).is_mine);
    assert!(!g.cell(0, 1).is_mine);
    assert_eq!(g.num_mines(), 3);
    assert_eq!(g.cell(0, 1).adjacent_mines, 2);
    assert_eq!(g.cell(2, 0).adjacent_mines, 1);
}

#[test]
fn three_by_three_single_corner_mine() {
    let mut g = Game::with_order(3, 3, 1, &ordered(9));
    assert!(g.cell(0, 0).is_mine);
    assert_eq!(g.cell(1, 1).adjacent_mines, 1);
    assert_eq!(g.cell(0, 1).adjacent_mines, 1);
    assert_eq!(g.cell(1, 0).adjacent_mines, 1);
    assert_eq!(g.cell(2, 2).adjacent_mines, 0);
    assert_eq!(g.cell(0, 2).adjacent_mines, 0);
    assert_eq!(g.reveal_cell(2, 2), Ok(RevealOutcome::SafeSoFar));
    for r in 0..3 {
        for c in 0..3 {
            assert_eq!(g.is_revealed(r, c), (r, c) != (0, 0));
        }
    }
    assert!(g.check_win());
}

#[test]
fn revealing_twice_changes_nothing() {
    let mut g = game_with_mines(4, 4, &[(0, 0), (3, 3)]);
    assert_eq!(g.reveal_cell(0, 1), Ok(RevealOutcome::SafeSoFar));
    let after_first = revealed_grid(&g);
    assert_eq!(g.reveal_cell(0, 1), Ok(RevealOutcome::SafeSoFar));
    assert_eq!(revealed_grid(&g), after_first);
    assert_eq!(g.reveal_cell(1, 2), Ok(RevealOutcome::SafeSoFar));
    let after_flood = revealed_grid(&g);
    assert_eq!(g.reveal_cell(1, 2), Ok(RevealOutcome::SafeSoFar));
    assert_eq!(revealed_grid(&g), after_flood);
}

#[test]
fn flood_fill_stops_at_numbered_cells() {
    // Column 2 is a wall of mines; the left part is blank or numbered.
    let mut g = game_with_mines(4, 5, &[(0, 2), (1, 2), (2, 2), (3, 2)]);
    assert_eq!(g.reveal_cell(1, 0), Ok(RevealOutcome::SafeSoFar));
    for r in 0..4 {
        for c in 0..5 {
            assert_eq!(g.is_revealed(r, c), c < 2, "cell ({}, {})", r, c);
        }
    }
    assert!(!g.check_win());
}

#[test]
fn flood_fill_reveals_component_and_border_only() {
    // Mines down column 3 but for the last row; the blank columns 0 and 1
    // spread to the numbered column 2 and no further.
    let mut g = game_with_mines(5, 5, &[(0, 3), (1, 3), (2, 3), (3, 3)]);
    assert_eq!(g.reveal_cell(4, 0), Ok(RevealOutcome::SafeSoFar));
    for r in 0..5 {
        for c in 0..5 {
            assert_eq!(g.is_revealed(r, c), c <= 2, "cell ({}, {})", r, c);
            if g.is_revealed(r, c) {
                assert!(!g.cell(r, c).is_mine);
            }
        }
    }
    assert_eq!(g.cell(4, 2).adjacent_mines, 1);
    assert_eq!(g.cell(2, 2).adjacent_mines, 3);
    assert!(!g.check_win());
}

#[test]
fn numbered_cell_reveals_only_itself() {
    let mut g = game_with_mines(3, 3, &[(0, 0)]);
    assert_eq!(g.reveal_cell(1, 1), Ok(RevealOutcome::SafeSoFar));
    for r in 0..3 {
        for c in 0..3 {
            assert_eq!(g.is_revealed(r, c), (r, c) == (1, 1));
        }
    }
}

#[test]
fn win_exactly_when_all_safe_cells_revealed() {
    let mines = [(0, 1), (2, 0)];
    let mut g = game_with_mines(3, 3, &mines);
    let safe: Vec<(usize, usize)> = (0..3)
        .flat_map(|r| (0..3).map(move |c| (r, c)))
        .filter(|p| !mines.contains(p))
        .collect();
    assert!(!g.check_win());
    for &(r, c) in safe.iter() {
        assert_eq!(g.reveal_cell(r, c), Ok(RevealOutcome::SafeSoFar));
        let all = safe.iter().all(|&(a, b)| g.is_revealed(a, b));
        assert_eq!(g.check_win(), all);
    }
    assert!(g.check_win());
}

#[test]
fn mine_hit_is_not_a_win() {
    let mut g = game_with_mines(1, 2, &[(0, 0)]);
    assert_eq!(g.reveal_cell(0, 1), Ok(RevealOutcome::SafeSoFar));
    assert!(g.check_win());
    assert_eq!(g.reveal_cell(0, 0), Ok(RevealOutcome::HitMine));
    assert!(g.is_revealed(0, 0));
    assert!(!g.check_win());

    let mut h = game_with_mines(2, 2, &[(0, 0), (1, 1)]);
    assert_eq!(h.reveal_cell(0, 1), Ok(RevealOutcome::SafeSoFar));
    assert_eq!(h.reveal_cell(1, 0), Ok(RevealOutcome::SafeSoFar));
    assert!(h.check_win());
    assert_eq!(h.reveal_cell(1, 1), Ok(RevealOutcome::HitMine));
    assert!(!h.check_win());
    assert_eq!(h.reveal_cell(1, 1), Ok(RevealOutcome::SafeSoFar));
}

#[test]
fn reveal_out_of_bounds_is_refused() {
    let mut g = game_with_mines(2, 3, &[(0, 0)]);
    assert_eq!(g.reveal_cell(2, 0), Err(GameError::OutOfBounds));
    assert_eq!(g.reveal_cell(0, 3), Err(GameError::OutOfBounds));
    assert_eq!(g.reveal_cell(usize::MAX, usize::MAX), Err(GameError::OutOfBounds));
    assert!(revealed_grid(&g).iter().all(|row| row.iter().all(|&b| !b)));
}

#[test]
fn mine_count_of_empty_board() {
    let g = Game::with_order(2, 2, 0, &ordered(4));
    assert_eq!(g.num_mines(), 0);
    let mut g = g;
    assert_eq!(g.reveal_cell(0, 0), Ok(RevealOutcome::SafeSoFar));
    assert!(g.check_win());
}

#[test]
fn parse_move_uses_board_size() {
    let g = Game::with_order(5, 5, 1, &ordered(25));
    assert_eq!(g.parse_move("B3"), Some((2, 1)));
    assert_eq!(g.parse_move("e5\n"), Some((4, 4)));
    assert_eq!(g.parse_move("F1"), None);
    assert_eq!(g.parse_move("A6"), None);
}
