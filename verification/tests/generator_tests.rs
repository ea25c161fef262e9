use rand::prelude::SliceRandom;
use rand::thread_rng;
use sudoku::board::Board;
use sudoku::generator::{
    assign_first, dig_holes, generate_game, index_of_byte, is_game_has_unique_solution,
    next_diggable_index, random_index, select_non_fixed, try_candidates, try_init_game,
    try_solve_game, MIN_CELLS, STEP_CAP,
};
use sudoku::grid::game_str_to_vec;

const PUZZLE: &str =
    "4.....8.5.3..........7......2.....6.....8.4......1.......6.3.7.5..2.....1.4......";
const SOLUTION: &str =
    "417369825632158947958724316825437169791586432346912758289643571573291684164875293";

#[test]
fn test_random_index() {
    println!("{}", random_index(81));
    println!("{}", random_index(81));
    println!("{}", random_index(81));
}

#[test]
fn test_shuffle() {
    let mut v = vec![1, 2, 3, 4, 5, 6, 7, 8, 9];
    let mut rng = thread_rng();
    v.shuffle(&mut rng);
    println!("Shuffled:   {:?}", v);
}

#[test]
fn test_genera_new_game() {
    let g = generate_game();
    println!("{}", g);
    let p = dig_holes(&g);
    println!("{}", p);

    let mut board = Board::new();
    let game_vec = game_str_to_vec(&p).unwrap();
    board.init_values(&game_vec).unwrap();
    let success = board.solve();
    assert_eq!(success, true);
    println!("{}", board.serialize());
}

#[test]
fn random_index_stays_below_total() {
    for total in [1u8, 2, 6, 81, 255] {
        for _ in 0..200 {
            assert!(random_index(total) < total);
        }
    }
    assert_eq!(random_index(1), 0);
}

#[test]
fn generate_game_gives_a_solved_grid() {
    for _ in 0..3 {
        let g = generate_game();
        assert_eq!(g.chars().count(), 81);
        assert!(g.chars().all(|c| ('1'..='9').contains(&c)));
        let mut board = Board::new();
        assert!(board.load_game(&g));
        assert!(board.is_solved());
    }
}

#[test]
fn dig_holes_keeps_a_part_of_the_solution() {
    let p = dig_holes(SOLUTION);
    assert_eq!(p.chars().count(), 81);
    let mut clues = 0;
    for (a, b) in p.chars().zip(SOLUTION.chars()) {
        assert!(a == '0' || a == b);
        if a != '0' {
            clues += 1;
        }
    }
    assert!(clues >= MIN_CELLS as usize);
    assert!(clues <= 81);
    // the solution is still reached
    let mut board = Board::new();
    assert_eq!(board.init(&p), Ok(true));
    assert!(board.solve());
    assert!(board.is_solved());
}

#[test]
fn select_non_fixed_names_an_open_cell() {
    let mut board = Board::new();
    board.load_game(PUZZLE);
    for _ in 0..100 {
        let index = select_non_fixed(&board);
        assert!(index < 81);
        assert!(!board.cell(index as usize).is_fixed());
    }
    // one open cell only
    let mut text = String::from(SOLUTION);
    text.replace_range(40..41, ".");
    board.load_game(&text);
    assert_eq!(select_non_fixed(&board), 40);
}

#[test]
fn next_diggable_index_names_a_marked_cell() {
    let mut marks = [false; 81];
    assert_eq!(next_diggable_index(&marks), 81);
    marks[17] = true;
    assert_eq!(next_diggable_index(&marks), 17);
    marks[60] = true;
    for _ in 0..50 {
        let index = next_diggable_index(&marks);
        assert!(index == 17 || index == 60);
    }
}

#[test]
fn try_solve_game_on_a_solved_board_takes_no_step() {
    let mut board = Board::new();
    board.load_game(SOLUTION);
    let before = board.backup();
    assert_eq!(try_solve_game(&mut board), (true, 0));
    assert_eq!(board.backup(), before);
}

#[test]
fn try_solve_game_solves_or_leaves_the_board() {
    let mut board = Board::new();
    assert_eq!(board.init(PUZZLE), Ok(true));
    let before = board.backup();
    let (solved, steps) = try_solve_game(&mut board);
    assert!(steps <= (STEP_CAP + 1) * 81);
    if solved {
        assert_eq!(board.serialize(), SOLUTION);
    } else {
        assert_eq!(board.backup(), before);
    }
}

#[test]
fn try_solve_game_fails_where_there_is_no_solution() {
    let mut board = Board::new();
    board.load_game(SOLUTION);
    let mut state = board.backup();
    state[0] = (0, 256);
    board.restore(&state);
    let (solved, steps) = try_solve_game(&mut board);
    assert!(!solved);
    assert_eq!(steps, 1);
    assert_eq!(board.backup(), state);
}

#[test]
fn try_init_game_adds_two_givens() {
    let mut board = Board::new();
    board.fill_candidates();
    let count = try_init_game(&mut board);
    assert_eq!(count, 2);
    let fixed = (0..81).filter(|i| board.cell(*i).is_fixed()).count();
    assert!(fixed >= 2);
}

#[test]
fn try_init_game_stops_on_a_full_board() {
    let mut board = Board::new();
    board.load_game(SOLUTION);
    assert_eq!(try_init_game(&mut board), 0);
    assert_eq!(board.serialize(), SOLUTION);
}

#[test]
fn try_init_game_stops_at_a_dead_cell() {
    let mut board = Board::new();
    board.load_game(SOLUTION);
    let mut state = board.backup();
    // the one open cell has only a candidate that its row refuses
    state[0] = (0, 256);
    state[1] = (0, 1);
    board.restore(&state);
    let count = try_init_game(&mut board);
    assert!(count <= 2);
}

#[test]
fn unique_solution_test_keeps_a_needed_clue() {
    // with cell 0 open the grid of two cells that can be swapped is ambiguous
    let mut grid = vec![0u8; 81];
    grid[0] = 1;
    let before = grid.clone();
    let unique = is_game_has_unique_solution(&mut grid, 0);
    if !unique {
        assert_eq!(grid, before);
    } else {
        assert_eq!(grid[0], 9);
        assert_eq!(&grid[1..], &before[1..]);
    }
}

#[test]
fn unique_solution_test_finds_a_forced_cell() {
    let mut grid = game_str_to_vec(SOLUTION).unwrap();
    let before = grid.clone();
    // every other digit at cell 0 clashes with its row
    assert!(is_game_has_unique_solution(&mut grid, 0));
    assert_eq!(grid[0], 9);
    assert_eq!(&grid[1..], &before[1..]);
    // the cell that holds 9 is left with 8
    let mut grid = game_str_to_vec(SOLUTION).unwrap();
    assert_eq!(grid[5], 9);
    assert!(is_game_has_unique_solution(&mut grid, 5));
    assert_eq!(grid[5], 8);
}

#[test]
fn next_diggable_index_follows_the_shuffle() {
    let marks = [true; 81];
    let mut seen = [false; 81];
    for _ in 0..400 {
        let index = next_diggable_index(&marks);
        assert!(index < 81);
        seen[index] = true;
    }
    // an order that never changes would name cell 0 each time
    assert!(seen.iter().filter(|s| **s).count() > 1);
}

#[test]
fn assign_first_takes_the_first_digit_that_fits() {
    let mut board = Board::new();
    board.load_game(SOLUTION);
    let mut state = board.backup();
    // cell 0 holds 4 in the solution; its neighbour has 9 as its last candidate
    state[0] = (0, 0b100001000);
    state[1] = (0, 0b100000000);
    board.restore(&state);
    // 9 would take the last candidate of cell 1, 4 is accepted
    assert!(assign_first(&mut board, 0, &vec![9, 4]));
    assert_eq!(board.cell(0).backup(), (4, 0));
    assert_eq!(board.cell(1).backup(), (0, 0b100000000));

    // in the other order the first digit is taken at once
    board.restore(&state);
    assert!(assign_first(&mut board, 0, &vec![4, 9]));
    assert_eq!(board.cell(0).get_value(), 4);
}

#[test]
fn assign_first_leaves_the_board_when_nothing_fits() {
    let mut board = Board::new();
    board.fill_candidates();
    assert!(board.assign_cell(0, 1));
    assert!(board.assign_cell(1, 2));
    // cell 2 shares the row with 1 and 2; cell 11 below it can no longer hold them
    let before = board.backup();
    assert!(!assign_first(&mut board, 2, &vec![]));
    assert_eq!(board.backup(), before);
    // the last candidate of a peer cannot be taken
    let mut tight = Board::new();
    tight.load_game(SOLUTION);
    let mut state = tight.backup();
    state[0] = (0, 0b1000);
    state[1] = (0, 0b1000);
    tight.restore(&state);
    assert!(!assign_first(&mut tight, 0, &vec![4]));
    assert_eq!(tight.backup(), state);
}

#[test]
fn index_of_byte_is_the_remainder() {
    assert_eq!(index_of_byte(0, 81), 0);
    assert_eq!(index_of_byte(80, 81), 80);
    assert_eq!(index_of_byte(81, 81), 0);
    assert_eq!(index_of_byte(255, 81), 12);
    assert_eq!(index_of_byte(255, 6), 3);
    assert_eq!(index_of_byte(200, 1), 0);
}

#[test]
fn try_candidates_follows_the_order_of_the_list() {
    let mut board = Board::new();
    board.load_game(SOLUTION);
    let mut state = board.backup();
    // cell 0 holds 4 in the solution
    state[0] = (0, 0b100001000);
    board.restore(&state);
    // 9 is taken first and leads nowhere, then 4 completes the grid
    assert_eq!(try_candidates(&mut board, 0, &vec![9, 4]), (true, 2));
    assert_eq!(board.serialize(), SOLUTION);
    board.restore(&state);
    assert_eq!(try_candidates(&mut board, 0, &vec![4, 9]), (true, 1));
    assert_eq!(board.serialize(), SOLUTION);
    board.restore(&state);
    assert_eq!(try_candidates(&mut board, 0, &vec![9]), (false, 1));
    assert_eq!(board.backup(), state);
    assert_eq!(try_candidates(&mut board, 0, &vec![]), (false, 0));
    assert_eq!(board.backup(), state);
}

#[test]
fn try_solve_game_that_fails_within_the_cap_means_no_solution() {
    let mut board = Board::new();
    board.load_game(SOLUTION);
    let mut state = board.backup();
    state[0] = (0, 256);
    state[80] = (0, 0b110);
    board.restore(&state);
    let (solved, steps) = try_solve_game(&mut board);
    assert!(!solved);
    assert!(steps <= STEP_CAP);
    // the search without chance and without cap agrees
    assert!(!board.solve());
}

#[test]
fn unique_solution_test_sees_a_grid_that_setting_up_solves() {
    // the cells 1, 3, 10 and 12 of the solution hold 1 3 / 3 1 and can be swapped
    let mut grid = game_str_to_vec(SOLUTION).unwrap();
    assert_eq!((grid[1], grid[3], grid[10], grid[12]), (1, 3, 3, 1));
    grid[3] = 0;
    grid[10] = 0;
    grid[12] = 0;
    let before = grid.clone();
    // with 3 in cell 1 the grid is valid and propagation alone completes it
    let mut other = before.clone();
    other[1] = 3;
    assert!(Board::is_valid_game(&other));
    let mut board = Board::new();
    assert_eq!(board.init_values(&other), Ok(true));
    assert!(board.is_solved());
    assert!(!is_game_has_unique_solution(&mut grid, 1));
    assert_eq!(grid, before);
}

#[test]
fn dig_holes_leaves_more_than_the_target_only_where_each_clue_is_needed() {
    let p = dig_holes(SOLUTION);
    let puzzle = game_str_to_vec(&p).unwrap();
    let clues = puzzle.iter().filter(|v| **v != 0).count();
    if clues > 22 {
        for i in 0..81 {
            if puzzle[i] == 0 {
                continue;
            }
            // some other digit at the cell completes the other clues
            let mut found = false;
            for v in 1..10u8 {
                if v == puzzle[i] || found {
                    continue;
                }
                let mut other = puzzle.clone();
                other[i] = v;
                let mut board = Board::new();
                if Board::is_valid_game(&other) && board.init_values(&other).is_ok() {
                    found = board.solve();
                }
            }
            assert!(found);
        }
    }
}

#[test]
fn try_solve_game_succeeds_where_the_search_is_small() {
    // one open cell with the one candidate that solves the board
    let mut board = Board::new();
    board.load_game(SOLUTION);
    let mut state = board.backup();
    state[0] = (0, 0b1000);
    board.restore(&state);
    assert_eq!(try_solve_game(&mut board), (true, 1));
    assert_eq!(board.serialize(), SOLUTION);
    // two open cells with two candidates each: the search tree holds six digits
    let mut state = Board::new();
    state.load_game(SOLUTION);
    let mut cells = state.backup();
    cells[0] = (0, 0b100001000);
    cells[80] = (0, 0b110);
    state.restore(&cells);
    let (solved, steps) = try_solve_game(&mut state);
    assert!(solved);
    assert!(2 <= steps && steps <= 6);
    assert_eq!(state.serialize(), SOLUTION);
}

#[test]
fn try_candidates_counts_the_digits_that_it_tries() {
    let mut board = Board::new();
    board.fill_candidates();
    assert!(board.assign_cell(0, 1));
    assert!(board.assign_cell(1, 2));
    // an empty list tries nothing
    assert_eq!(try_candidates(&mut board, 2, &vec![]), (false, 0));
    let before = board.backup();
    let (solved, steps) = try_candidates(&mut board, 2, &vec![3]);
    assert!(steps >= 1);
    if solved {
        assert!(board.is_solved());
        assert_eq!(board.cell(2).get_value(), 3);
    } else {
        assert_eq!(board.backup(), before);
    }
}
