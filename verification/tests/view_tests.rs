use sudoku::grid::game_str_to_vec;
use sudoku::cell::Cell;
use sudoku::view::{BoardView, CellMode, CellView, Input, Tone};

const PUZZLE: &str =
    "4.....8.5.3..........7......2.....6.....8.4......1.......6.3.7.5..2.....1.4......";
const SOLUTION: &str =
    "417369825632158947958724316825437169791586432346912758289643571573291684164875293";

fn with_puzzle(text: &str) -> BoardView {
    let mut view = BoardView::new();
    assert!(view.new_game(&game_str_to_vec(text).unwrap()));
    view
}

#[test]
fn cell_view_starts_in_edit_mode() {
    let mut cv = CellView::new();
    assert!(matches!(cv.get_mode(), CellMode::Edit));
    assert!(!cv.is_active());
    assert!(!cv.is_highlighted());
    cv.set_mode(CellMode::Draft);
    assert!(matches!(cv.get_mode(), CellMode::Draft));
    cv.set_active(true);
    cv.set_highlight(true);
    assert!(cv.is_active());
    assert!(cv.is_highlighted());
    assert!(matches!(cv.get_mode(), CellMode::Draft));
    cv.set_active(false);
    assert!(!cv.is_active());
    assert!(cv.is_highlighted());
}

#[test]
fn new_board_view_is_empty() {
    let view = BoardView::new();
    assert_eq!(view.focused(), None);
    for i in 0..81 {
        assert_eq!(view.cell(i).backup(), (0, 0));
        assert!(!view.is_readonly(i));
        assert!(!view.cell_view(i).is_active());
        assert!(!view.cell_view(i).is_highlighted());
    }
    assert!(!view.check_game());
}

#[test]
fn new_game_marks_the_clues() {
    let view = with_puzzle(PUZZLE);
    assert_eq!(view.cell(0).backup(), (4, 0));
    assert!(view.is_readonly(0));
    assert_eq!(view.cell(1).backup(), (0, 511));
    assert!(!view.is_readonly(1));
    assert_eq!(view.values(), game_str_to_vec(PUZZLE).unwrap());
}

#[test]
fn new_game_refuses_what_is_no_grid() {
    let mut view = with_puzzle(PUZZLE);
    assert!(!view.new_game(&vec![1, 2, 3]));
    let mut bad = game_str_to_vec(PUZZLE).unwrap();
    bad[0] = 10;
    assert!(!view.new_game(&bad));
    assert_eq!(view.values(), game_str_to_vec(PUZZLE).unwrap());
}

#[test]
fn set_folus_cell_moves_the_focus_and_highlights_equal_values() {
    let mut view = with_puzzle(PUZZLE);
    view.set_folus_cell(0);
    assert_eq!(view.focused(), Some(0));
    assert!(view.cell_view(0).is_active());
    // the cells that hold 4: 0, 42 and 74
    for i in 0..81 {
        let expected = i == 0 || i == 42 || i == 74;
        assert_eq!(view.cell_view(i).is_highlighted(), expected);
    }
    view.set_folus_cell(1);
    assert_eq!(view.focused(), Some(1));
    assert!(!view.cell_view(0).is_active());
    assert!(view.cell_view(1).is_active());
    // an open cell highlights nothing
    for i in 0..81 {
        assert!(!view.cell_view(i).is_highlighted());
    }
    view.set_folus_cell(1);
    assert!(view.cell_view(1).is_active());
}

#[test]
fn arrows_move_the_focus_within_the_board() {
    let mut view = BoardView::new();
    view.on_input(Input::Down);
    assert_eq!(view.focused(), Some(0));
    view.on_input(Input::Up);
    assert_eq!(view.focused(), Some(0));
    view.on_input(Input::Left);
    assert_eq!(view.focused(), Some(0));
    view.on_input(Input::Right);
    assert_eq!(view.focused(), Some(1));
    view.on_input(Input::Down);
    assert_eq!(view.focused(), Some(10));
    view.on_input(Input::Up);
    assert_eq!(view.focused(), Some(1));
    view.on_input(Input::Left);
    assert_eq!(view.focused(), Some(0));
    view.set_folus_cell(80);
    view.on_input(Input::Right);
    assert_eq!(view.focused(), Some(80));
    view.on_input(Input::Down);
    assert_eq!(view.focused(), Some(80));
    view.set_folus_cell(8);
    view.on_input(Input::Right);
    assert_eq!(view.focused(), Some(9));
    view.on_input(Input::Other);
    assert_eq!(view.focused(), Some(9));
    for i in 0..81 {
        assert_eq!(view.cell_view(i).is_active(), i == 9);
    }
}

#[test]
fn a_digit_in_edit_mode_fixes_an_open_cell() {
    let mut view = with_puzzle(PUZZLE);
    view.on_input(Input::Char('7'));
    assert_eq!(view.values(), game_str_to_vec(PUZZLE).unwrap());
    view.set_folus_cell(1);
    view.on_input(Input::Char('4'));
    assert_eq!(view.cell(1).backup(), (4, 0));
    // the other cells with 4 are highlighted, the cell itself is not
    for i in 0..81 {
        let expected = i == 0 || i == 42 || i == 74;
        assert_eq!(view.cell_view(i).is_highlighted(), expected);
    }
    // a fixed cell keeps its value
    view.on_input(Input::Char('9'));
    assert_eq!(view.cell(1).backup(), (4, 0));
    view.set_folus_cell(0);
    view.on_input(Input::Char('9'));
    assert_eq!(view.cell(0).backup(), (4, 0));
    // 0 is no digit of the game
    view.set_folus_cell(2);
    view.on_input(Input::Char('0'));
    assert_eq!(view.cell(2).backup(), (0, 511));
}

#[test]
fn a_digit_in_draft_mode_toggles_a_candidate() {
    let mut view = BoardView::new();
    view.set_folus_cell(5);
    view.on_input(Input::Char('d'));
    assert!(matches!(view.cell_view(5).get_mode(), CellMode::Draft));
    // the empty cell got every candidate
    assert_eq!(view.cell(5).backup(), (0, 511));
    view.on_input(Input::Char('3'));
    assert_eq!(view.cell(5).backup(), (0, 511 - 4));
    view.on_input(Input::Char('3'));
    assert_eq!(view.cell(5).backup(), (0, 511));
    // a cell that has candidates keeps them
    view.on_input(Input::Char('9'));
    view.on_input(Input::Char('d'));
    assert_eq!(view.cell(5).backup(), (0, 255));
    view.on_input(Input::Char('e'));
    assert!(matches!(view.cell_view(5).get_mode(), CellMode::Edit));
    assert!(matches!(view.cell_view(4).get_mode(), CellMode::Edit));
}

#[test]
fn c_empties_a_cell_that_is_no_clue() {
    let mut view = with_puzzle(PUZZLE);
    view.set_folus_cell(0);
    view.on_input(Input::Char('c'));
    assert_eq!(view.cell(0).backup(), (4, 0));
    view.set_folus_cell(1);
    view.on_input(Input::Char('c'));
    assert_eq!(view.cell(1).backup(), (0, 0));
    view.on_input(Input::Char('5'));
    assert_eq!(view.cell(1).backup(), (5, 0));
    view.on_input(Input::Char('c'));
    assert_eq!(view.cell(1).backup(), (0, 0));
    view.on_input(Input::Char('x'));
    assert_eq!(view.cell(1).backup(), (0, 0));
}

#[test]
fn reset_game_keeps_the_clues_only() {
    let mut view = with_puzzle(PUZZLE);
    view.set_folus_cell(1);
    view.on_input(Input::Char('1'));
    view.set_folus_cell(2);
    view.on_input(Input::Char('c'));
    view.reset_game();
    assert_eq!(view.values(), game_str_to_vec(PUZZLE).unwrap());
    assert_eq!(view.cell(1).backup(), (0, 511));
    assert_eq!(view.cell(2).backup(), (0, 511));
    assert_eq!(view.cell(0).backup(), (4, 0));
    assert_eq!(view.focused(), Some(2));
}

#[test]
fn check_game_tells_a_solved_grid() {
    let view = with_puzzle(SOLUTION);
    assert!(view.check_game());
    let open = with_puzzle(PUZZLE);
    assert!(!open.check_game());
    let mut wrong = String::from(SOLUTION);
    wrong.replace_range(0..1, "1");
    assert!(!with_puzzle(&wrong).check_game());
}

#[test]
fn tone_puts_the_focus_before_the_highlight() {
    let mut cv = CellView::new();
    assert!(matches!(cv.tone(false), Tone::Plain));
    assert!(matches!(cv.tone(true), Tone::Clue));
    cv.set_highlight(true);
    assert!(matches!(cv.tone(false), Tone::Highlight));
    assert!(matches!(cv.tone(true), Tone::ClueHighlight));
    cv.set_active(true);
    assert!(matches!(cv.tone(false), Tone::Focus));
    assert!(matches!(cv.tone(true), Tone::ClueFocus));
    cv.set_highlight(false);
    assert!(matches!(cv.tone(false), Tone::Focus));
}

#[test]
fn place_shows_candidates_in_draft_mode_only() {
    let mut cell = Cell::new();
    cell.add_candidate(1);
    cell.add_candidate(9);
    let mut cv = CellView::new();
    for v in 0..9 {
        assert_eq!(cv.place(&cell, v), '.');
    }
    cv.set_mode(CellMode::Draft);
    assert_eq!(cv.place(&cell, 0), '1');
    assert_eq!(cv.place(&cell, 1), '.');
    assert_eq!(cv.place(&cell, 8), '9');
}
