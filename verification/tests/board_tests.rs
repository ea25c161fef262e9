use sudoku::board::Board;
use sudoku::grid::game_str_to_vec;
use sudoku::units::{
    get_block_unit_by_index, get_block_unit_by_pos, get_col_unit, get_row_unit,
};

const GAME: &str =
    "4.....8.5.3..........7......2.....6.....8.4......1.......6.3.7.5..2.....1.4......";
const GAME_SOLUTION: &str =
    "417369825632158947958724316825437169791586432346912758289643571573291684164875293";

fn unit_is_complete(text: &str, unit: &[u8; 9]) -> bool {
    let chars: Vec<char> = text.chars().collect();
    for d in ['1', '2', '3', '4', '5', '6', '7', '8', '9'] {
        let mut seen = 0;
        for index in unit {
            if chars[*index as usize] == d {
                seen += 1;
            }
        }
        if seen != 1 {
            return false;
        }
    }
    true
}

fn is_complete_solution(text: &str) -> bool {
    if text.chars().count() != 81 {
        return false;
    }
    for i in 0..9 {
        if !unit_is_complete(text, get_row_unit(i))
            || !unit_is_complete(text, get_col_unit(i))
            || !unit_is_complete(text, get_block_unit_by_index(i))
        {
            return false;
        }
    }
    true
}

#[test]
fn is_load_work() {
    let mut b = Board::new();
    b.load_game(GAME);
    assert_eq!(b.cell(0).get_value(), 4);
    assert_eq!(b.cell(6).get_value(), 8);
    assert_eq!(b.cell(74).get_value(), 4);
    println!("{}", b.render());
}

#[test]
fn is_init_works() {
    let mut b = Board::new();
    assert_eq!(b.init(GAME), Ok(true));
    println!("{}", b.render());
}

#[test]
fn is_backup_restore_works() {
    let mut b = Board::new();
    assert_eq!(b.init(GAME), Ok(true));
    let s1 = b.serialize();

    let backup = b.backup();
    b.reset();
    let s2 = b.serialize();
    assert_ne!(s1, s2);

    b.restore(&backup);
    let s3 = b.serialize();
    assert_eq!(s1, s3);
}

#[test]
fn is_serialize_works() {
    let mut b = Board::new();
    b.load_game(GAME);
    assert_eq!(b.serialize(), GAME);
}

#[test]
fn is_get_units_works() {
    let row = get_row_unit(3);
    let col = get_col_unit(3);
    let block = get_block_unit_by_pos(3, 3);

    for i in 0..9 {
        // row index from 27-35
        assert_eq!(row[i], (27 + i) as u8);
        // row index from 3-75, step 9
        assert_eq!(col[i], (3 + i * 9) as u8);
        // block index [30, 31, 32, 39, 40, 41, 48, 49, 50]
        let m = i % 3;
        let d = i / 3;
        assert_eq!(block[i], (30 + m + d * 9) as u8)
    }
}

#[test]
fn is_solve_works() {
    let mut b = Board::new();
    assert_eq!(b.init(GAME), Ok(true));
    println!("{}", b.render());
    let success = b.solve();
    assert_eq!(success, true);
    println!("{}", b.render());
}

#[test]
fn solve_gives_a_complete_grid_without_dots() {
    let mut b = Board::new();
    assert_eq!(b.init(GAME), Ok(true));
    assert!(b.solve());
    let text = b.serialize();
    assert_eq!(text.len(), 81);
    assert!(!text.contains('.'));
    assert!(text.chars().all(|c| ('1'..='9').contains(&c)));
    assert!(b.is_solved());
    assert!(is_complete_solution(&text));
    assert_eq!(text, GAME_SOLUTION);
}

#[test]
fn solution_keeps_the_clues() {
    let mut b = Board::new();
    assert_eq!(b.init(GAME), Ok(true));
    assert!(b.solve());
    let text: Vec<char> = b.serialize().chars().collect();
    for (i, c) in GAME.chars().enumerate() {
        if c != '.' {
            assert_eq!(text[i], c);
        }
    }
}

#[test]
fn init_refuses_a_short_string_and_keeps_the_board() {
    let mut b = Board::new();
    b.load_game(GAME);
    let before = b.backup();
    let short = &GAME[..80];
    assert_eq!(b.init(short), Err(false));
    assert_eq!(b.backup(), before);
    assert_eq!(b.serialize(), GAME);
}

#[test]
fn init_refuses_a_long_string() {
    let mut b = Board::new();
    let long = format!("{}.", GAME);
    assert_eq!(b.init(&long), Err(false));
    assert_eq!(b.serialize(), ".".repeat(81));
}

#[test]
fn load_game_refuses_wrong_length() {
    let mut b = Board::new();
    assert!(b.load_game(GAME));
    assert!(!b.load_game("123"));
    assert_eq!(b.serialize(), GAME);
}

#[test]
fn load_values_takes_a_grid_and_refuses_others() {
    let mut b = Board::new();
    let values = game_str_to_vec(GAME).unwrap();
    assert!(b.load_values(&values));
    assert_eq!(b.serialize(), GAME);
    let mut bad = values.clone();
    bad[5] = 10;
    assert!(!b.load_values(&bad));
    bad.truncate(80);
    assert!(!b.load_values(&bad));
    assert_eq!(b.serialize(), GAME);
}

#[test]
fn game_str_to_vec_reads_digits_and_dots() {
    let values = game_str_to_vec(GAME).unwrap();
    assert_eq!(values.len(), 81);
    assert_eq!(values[0], 4);
    assert_eq!(values[1], 0);
    assert_eq!(values[6], 8);
    assert_eq!(values[80], 0);
    assert_eq!(game_str_to_vec(&GAME[..80]), None);
    let zeros = GAME.replace('.', "0");
    assert_eq!(game_str_to_vec(&zeros).unwrap(), values);
}

#[test]
fn init_values_matches_init() {
    let mut a = Board::new();
    let mut b = Board::new();
    assert_eq!(a.init(GAME), Ok(true));
    assert_eq!(b.init_values(&game_str_to_vec(GAME).unwrap()), Ok(true));
    assert_eq!(a.backup(), b.backup());
    let mut bad = game_str_to_vec(GAME).unwrap();
    bad[0] = 12;
    assert_eq!(b.init_values(&bad), Err(false));
    assert_eq!(a.backup(), b.backup());
}

#[test]
fn init_fails_on_a_clash() {
    let mut b = Board::new();
    let mut text = String::from("11");
    text.push_str(&".".repeat(79));
    assert_eq!(b.init(&text), Err(false));
}

#[test]
fn new_board_is_blank() {
    let b = Board::new();
    assert_eq!(b.serialize(), ".".repeat(81));
    assert!(!b.is_solved());
    assert_eq!(b.backup(), vec![(0u8, 0u16); 81]);
}

#[test]
fn fill_candidates_fills_open_cells_only() {
    let mut b = Board::new();
    b.load_game(GAME);
    b.fill_candidates();
    assert_eq!(b.cell(0).backup(), (4, 0));
    assert_eq!(b.cell(1).backup(), (0, 511));
}

#[test]
fn assign_cell_takes_the_digit_from_peers() {
    let mut b = Board::new();
    b.fill_candidates();
    assert!(b.assign_cell(0, 5));
    assert_eq!(b.cell(0).backup(), (5, 0));
    // row, column and block of cell 0
    for peer in [1usize, 8, 9, 72, 10, 20] {
        assert_eq!(b.cell(peer).has_candidate(5).0, false);
        assert_eq!(b.cell(peer).num_candidates(), 8);
    }
    // no peer
    assert_eq!(b.cell(40).num_candidates(), 9);
}

#[test]
fn assign_cell_cascades_to_a_forced_cell() {
    let mut b = Board::new();
    b.fill_candidates();
    for d in 1..9u8 {
        assert!(b.assign_cell(d - 1, d));
    }
    // cell 8 is the last of row 0: it is forced to 9
    assert_eq!(b.cell(8).get_value(), 9);
    // and 9 left column 8
    assert_eq!(b.cell(17).has_candidate(9).0, false);
}

#[test]
fn hidden_single_is_found_and_assigned() {
    let mut b = Board::new();
    b.fill_candidates();
    // 1 is placed so that in row 0 only cell 0 can still hold it
    assert!(b.assign_cell(12, 1)); // row 1, col 3: block 1
    assert!(b.assign_cell(24, 1)); // row 2, col 6: block 2
    assert!(b.assign_cell(28, 1)); // row 3, col 1
    assert!(b.assign_cell(56, 1)); // row 6, col 2
    assert_eq!(b.cell(0).get_value(), 0);
    assert_eq!(b.hidden_single_cell(get_row_unit(0), 1), Some(0));
    // the next propagation through row 0 finds it
    assert!(b.assign_cell(8, 9));
    assert_eq!(b.cell(0).get_value(), 1);
    assert_eq!(b.cell(0).backup(), (1, 0));
}

#[test]
fn is_unit_compatible_sees_a_double() {
    let mut b = Board::new();
    let mut text = String::from("1.......1");
    text.push_str(&".".repeat(72));
    b.load_game(&text);
    assert!(!b.is_unit_compatible(get_row_unit(0)));
    assert!(b.is_unit_compatible(get_row_unit(1)));
    assert!(b.is_unit_compatible(get_col_unit(0)));
    assert!(!b.all_units_compatible());
    assert!(!Board::is_valid_game(&game_str_to_vec(&text).unwrap()));
    assert!(Board::is_valid_game(&game_str_to_vec(GAME).unwrap()));
}

#[test]
fn is_solved_wants_a_full_valid_grid() {
    let mut b = Board::new();
    b.load_game(GAME_SOLUTION);
    assert!(b.is_solved());
    assert!(b.all_fixed());
    b.load_game(GAME);
    assert!(!b.is_solved());
    assert!(!b.all_fixed());
    // a full grid with a double
    let mut wrong = String::from(GAME_SOLUTION);
    wrong.replace_range(0..1, "1");
    b.load_game(&wrong);
    assert!(b.all_fixed());
    assert!(!b.is_solved());
}

#[test]
fn next_candidate_cell_takes_the_first_with_fewest() {
    let mut b = Board::new();
    b.fill_candidates();
    let (index, candidates) = b.next_candidate_cell();
    assert_eq!(index, 0);
    assert_eq!(candidates, vec![1, 2, 3, 4, 5, 6, 7, 8, 9]);
    assert!(b.assign_cell(40, 5));
    let (index, candidates) = b.next_candidate_cell();
    // the first peer of cell 40 in cell order is cell 4 (same column)
    assert_eq!(index, 4);
    assert_eq!(candidates, vec![1, 2, 3, 4, 6, 7, 8, 9]);
}

#[test]
fn next_candidate_cell_on_a_full_board() {
    let mut b = Board::new();
    b.load_game(GAME_SOLUTION);
    let (index, candidates) = b.next_candidate_cell();
    assert_eq!(index, 0);
    assert!(candidates.is_empty());
}

#[test]
fn solve_fails_without_solution_and_keeps_the_board() {
    let mut b = Board::new();
    b.load_game(GAME_SOLUTION);
    let mut state = b.backup();
    // cell 0 holds 4 in the solution; leave it only the candidate 9
    state[0] = (0, 256);
    b.restore(&state);
    assert!(!b.solve());
    assert_eq!(b.backup(), state);
}

#[test]
fn solve_completes_an_open_cell() {
    let mut b = Board::new();
    b.load_game(GAME_SOLUTION);
    let mut state = b.backup();
    state[0] = (0, 0b100001000);
    state[80] = (0, 511);
    b.restore(&state);
    assert!(b.solve());
    assert_eq!(b.serialize(), GAME_SOLUTION);
}

#[test]
fn solve_on_a_blank_board_finds_a_grid() {
    let mut b = Board::new();
    b.fill_candidates();
    assert!(b.solve());
    assert!(b.is_solved());
    assert!(is_complete_solution(&b.serialize()));
}

#[test]
fn hidden_single_cell_names_the_cell() {
    let mut b = Board::new();
    b.fill_candidates();
    assert_eq!(b.hidden_single_cell(get_row_unit(0), 1), None);
    let mut only = Board::new();
    let mut cell = *only.cell(0);
    cell.add_candidate(4);
    let mut state = only.backup();
    state[3] = cell.backup();
    only.restore(&state);
    assert_eq!(only.hidden_single_cell(get_row_unit(0), 4), Some(3));
    assert_eq!(only.hidden_single_cell(get_row_unit(0), 5), None);
    assert!(only.check_unit_content(get_row_unit(0)));
    assert_eq!(only.cell(3).get_value(), 4);
}

#[test]
fn eliminate_unit_candidate_clears_the_unit() {
    let mut b = Board::new();
    b.fill_candidates();
    assert!(b.eliminate_unit_candidate(get_col_unit(2), 7));
    for k in 0..9usize {
        assert_eq!(b.cell(9 * k + 2).has_candidate(7).0, false);
    }
    assert_eq!(b.cell(0).has_candidate(7).0, true);
}

#[test]
fn open_cells_lists_the_open_cells() {
    let mut b = Board::new();
    assert_eq!(b.open_cells(), (0..81).collect::<Vec<u8>>());
    b.load_game(GAME_SOLUTION);
    assert!(b.open_cells().is_empty());
    b.load_game(GAME);
    let open = b.open_cells();
    assert_eq!(open.len(), 81 - 17);
    assert_eq!(&open[..5], &[1, 2, 3, 4, 5]);
}

#[test]
fn is_board_state_tells_snapshots_from_other_lists() {
    let mut b = Board::new();
    assert_eq!(b.init(GAME), Ok(true));
    let good = b.backup();
    assert!(Board::is_board_state(&good));
    let mut short = good.clone();
    short.pop();
    assert!(!Board::is_board_state(&short));
    let mut high = good.clone();
    high[3] = (10, 0);
    assert!(!Board::is_board_state(&high));
    let mut wide = good.clone();
    wide[3] = (0, 512);
    assert!(!Board::is_board_state(&wide));
    let mut both = good.clone();
    both[3] = (5, 1);
    assert!(!Board::is_board_state(&both));
}

#[test]
fn units_follow_their_formulas() {
    for u in 0..9u8 {
        let row = get_row_unit(u);
        let col = get_col_unit(u);
        let block = get_block_unit_by_index(u);
        for k in 0..9u8 {
            assert_eq!(row[k as usize], 9 * u + k);
            assert_eq!(col[k as usize], 9 * k + u);
            assert_eq!(
                block[k as usize],
                27 * (u / 3) + 3 * (u % 3) + 9 * (k / 3) + k % 3
            );
        }
    }
    for r in 0..9u8 {
        for c in 0..9u8 {
            let block = get_block_unit_by_pos(r, c);
            assert_eq!(block, get_block_unit_by_index(3 * (r / 3) + c / 3));
            assert!(block.contains(&(9 * r + c)));
        }
    }
}

#[test]
fn every_cell_lies_in_three_units() {
    for cell in 0..81u8 {
        let mut count = 0;
        for u in 0..9u8 {
            for unit in [get_row_unit(u), get_col_unit(u), get_block_unit_by_index(u)] {
                if unit.contains(&cell) {
                    count += 1;
                }
            }
        }
        assert_eq!(count, 3);
    }
}

#[test]
fn solved_board_holds_each_digit_once_in_each_unit() {
    let mut b = Board::new();
    assert_eq!(b.init(GAME), Ok(true));
    assert!(b.solve());
    assert!(b.is_solved());
    for u in 0..9u8 {
        for unit in [get_row_unit(u), get_col_unit(u), get_block_unit_by_index(u)] {
            for d in 1..10u8 {
                let holders = unit
                    .iter()
                    .filter(|i| b.cell(**i as usize).get_value() == d)
                    .count();
                assert_eq!(holders, 1);
            }
        }
    }
}

#[test]
fn render_draws_values_and_candidates() {
    let mut b = Board::new();
    b.load_game(GAME);
    b.fill_candidates();
    let picture = b.render();
    let lines: Vec<&str> = picture.lines().collect();
    assert_eq!(lines.len(), 1 + 9 * 4);
    let heavy = "+".repeat(73);
    let light = "-".repeat(73);
    assert_eq!(lines[0], heavy);
    // row 0 holds 4 . . . . . 8 . 5
    assert_eq!(
        lines[1],
        "┼       ⏐ 1 2 3 ⏐ 1 2 3 ┼ 1 2 3 ⏐ 1 2 3 ⏐ 1 2 3 ┼       ⏐ 1 2 3 ⏐       ┼"
    );
    assert_eq!(
        lines[2],
        "┼   4   ⏐ 4 5 6 ⏐ 4 5 6 ┼ 4 5 6 ⏐ 4 5 6 ⏐ 4 5 6 ┼   8   ⏐ 4 5 6 ⏐   5   ┼"
    );
    assert_eq!(
        lines[3],
        "┼       ⏐ 7 8 9 ⏐ 7 8 9 ┼ 7 8 9 ⏐ 7 8 9 ⏐ 7 8 9 ┼       ⏐ 7 8 9 ⏐       ┼"
    );
    assert_eq!(lines[4], light);
    assert_eq!(lines[8], light);
    assert_eq!(lines[12], heavy);
    assert_eq!(lines[36], heavy);
    assert!(picture.ends_with('\n'));
}

#[test]
fn render_of_a_blank_board_shows_no_digit() {
    let b = Board::new();
    let picture = b.render();
    assert!(!picture.chars().any(|c| c.is_ascii_digit()));
    let mut open = Board::new();
    open.fill_candidates();
    assert!(open.assign_cell(0, 5));
    let picture = open.render();
    let lines: Vec<&str> = picture.lines().collect();
    // the value of a fixed cell stands where its candidate 5 would stand
    assert!(lines[1].starts_with("┼       ⏐ 1 2 3 "));
    assert!(lines[2].starts_with("┼   5   ⏐ 4   6 "));
    assert!(lines[3].starts_with("┼       ⏐ 7 8 9 "));
}

#[test]
fn init_looks_at_no_unit_without_an_open_cell() {
    let mut b = Board::new();
    let mut text = String::from("123456781");
    text.push_str(&".".repeat(72));
    // row 0 is full when its double comes, so nothing looks at it
    assert_eq!(b.init(&text), Ok(true));
    assert!(!b.is_unit_compatible(get_row_unit(0)));
    // every unit that has an open cell left holds no digit twice
    for u in 0..9u8 {
        for unit in [get_row_unit(u), get_col_unit(u), get_block_unit_by_index(u)] {
            let open = unit.iter().any(|i| !b.cell(*i as usize).is_fixed());
            if open {
                assert!(b.is_unit_compatible(unit));
            }
        }
    }
}

#[test]
fn eliminate_unit_candidate_sees_a_double_after_an_open_cell() {
    let mut b = Board::new();
    let mut text = String::from("1.......1");
    text.push_str(&".".repeat(72));
    b.load_game(&text);
    b.fill_candidates();
    // row 0 has open cells: the double is found
    assert!(!b.eliminate_unit_candidate(get_row_unit(0), 1));
}

#[test]
fn eliminate_at_works_on_one_cell() {
    let mut b = Board::new();
    b.fill_candidates();
    assert!(b.assign_cell(0, 1));
    let before = b.backup();
    // cell 0 is fixed: it is passed over
    assert!(b.eliminate_at(get_row_unit(0), 5, 0));
    assert_eq!(b.backup(), before);
    // cell 1 is open: it loses the candidate, the others keep it
    assert!(b.eliminate_at(get_row_unit(0), 5, 1));
    assert_eq!(b.cell(1).has_candidate(5).0, false);
    assert_eq!(b.cell(2).has_candidate(5).0, true);
    assert_eq!(b.cell(1).num_candidates(), 7);
}
