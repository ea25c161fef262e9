//! The puzzle generator: a random solved grid, and holes dug into it.

use vstd::prelude::*;
use crate::board::Board;
use crate::cell::{CellState, is_digit, mask_has, lemma_empty_and_full_mask, lemma_mask_digits};
use crate::grid::{
    clue_count, count_true, extends_clues, game_str_to_vec, grid_to_digits, is_complete, is_grid,
    is_solution, is_valid_grid, parse_grid, render_digits, render_grid, shifted_rows_grid,
    lemma_clue_count_bounds, lemma_clue_count_change, lemma_clue_count_unset,
    lemma_count_true_bound, lemma_count_true_clear, lemma_parse_render, lemma_parse_render_digits,
    lemma_shifted_rows_is_solution,
};
use crate::model::{
    assign_model, first_accepted, init_model, list_size, open_cells, search_size,
    lemma_list_size_shuffled, lemma_open_cells,
};
use crate::outside::{random_byte, shuffle};
use crate::state::{
    admits, board_wf, clue_state, is_solved_state, open_board, open_count, propagated, refines,
    solvable, values_of, with_value, lemma_admits_with_value, lemma_branch_refines,
    lemma_branches_cover, lemma_clue_state_admits, lemma_fix_open_cell, lemma_open_board_admits,
    lemma_open_count_all_fixed, lemma_open_count_bound, lemma_open_count_positive,
    lemma_refines_admits, lemma_refines_open_count, lemma_refines_reflexive,
    lemma_refines_transitive, lemma_solved_admits_itself,
};

verus! {

/// The fewest clues that digging leaves.
pub const MIN_CELLS: u8 = 17;

/// How many candidates one call of `try_solve_game` tries, those of the
/// calls below it counted in, before it gives up.
pub const STEP_CAP: usize = 100;

/// How often `generate_game` starts over from its nine givens before it
/// completes the blank board without chance.
pub const MAX_ROUNDS: usize = 1000;

/// The number below `total` that a byte stands for: its remainder.
pub fn index_of_byte(byte: u8, total: u8) -> (r: u8)
    requires
        total > 0,
    ensures
        r == byte % total,
        r < total,
{
    byte % total
}

/// A number below `total`, by chance.
pub fn random_index(total: u8) -> (r: u8)
    requires
        total > 0,
    ensures
        r < total,
{
    index_of_byte(random_byte(), total)
}

/// One of the open cells of the board, by chance.
pub fn select_non_fixed(board: &Board) -> (index: u8)
    requires
        board.wf(),
        open_count(board@) > 0,
    ensures
        index < 81,
        board@[index as int].0 == 0,
        open_cells(board@).contains(index),
{
    let open = board.open_cells();
    proof {
        lemma_open_cells(board@, 81);
        lemma_open_count_bound(board@);
    }
    let k = random_index(open.len() as u8);
    open[k as usize]
}

/// Every digit that `ordered` holds is held by `shuffled`, and the other
/// way round.
proof fn lemma_shuffled_contains(ordered: Seq<u8>, shuffled: Seq<u8>)
    requires
        shuffled.to_multiset() == ordered.to_multiset(),
    ensures
        shuffled.len() == ordered.len(),
        forall|d: u8| ordered.contains(d) <==> shuffled.contains(d),
{
    ordered.to_multiset_ensures();
    shuffled.to_multiset_ensures();
    assert forall|d: u8| ordered.contains(d) <==> shuffled.contains(d) by {
        assert(ordered.contains(d) <==> ordered.to_multiset().count(d) > 0);
        assert(shuffled.contains(d) <==> shuffled.to_multiset().count(d) > 0);
    }
}

/// Fixes cell `index` to the first digit of the list that `assign_cell`
/// accepts, going back to the state before after each digit that it
/// refuses. `false` says that it refused them all; the board is then as it
/// was.
pub fn assign_first(board: &mut Board, index: u8, candidates: &Vec<u8>) -> (assigned: bool)
    requires
        old(board).wf(),
        index < 81,
        forall|k: int| 0 <= k < candidates@.len() ==> is_digit(#[trigger] candidates@[k]),
    ensures
        (assigned, final(board)@) == first_accepted(old(board)@, index as int, candidates@, 0),
        final(board).wf(),
        !assigned ==> final(board)@ == old(board)@,
        !assigned ==> forall|g: Seq<u8>|
            is_solution(g) && #[trigger] admits(old(board)@, g) ==> !candidates@.contains(
                g[index as int],
            ),
        assigned ==> exists|k: int|
            0 <= k < candidates@.len() && assign_model(
                old(board)@,
                index as int,
                #[trigger] candidates@[k],
            ) == (true, final(board)@) && propagated(
                with_value(old(board)@, index as int, candidates@[k]),
                final(board)@,
                true,
            ),
{
    let board_state = board.backup();
    let ghost start = board@;
    let mut k: usize = 0;
    while k < candidates.len()
        invariant
            0 <= k <= candidates@.len(),
            board.wf(),
            start == old(board)@,
            board@ == start,
            board_state@ == start,
            index < 81,
            forall|j: int| 0 <= j < candidates@.len() ==> is_digit(#[trigger] candidates@[j]),
            first_accepted(start, index as int, candidates@, 0) == first_accepted(
                start,
                index as int,
                candidates@,
                k as int,
            ),
            forall|g: Seq<u8>, j: int|
                is_solution(g) && #[trigger] admits(start, g) && 0 <= j < k ==> g[index as int]
                    != #[trigger] candidates@[j],
        decreases candidates@.len() - k,
    {
        let c = candidates[k];
        assert(is_digit(candidates@[k as int]));
        let assign_result = board.assign_cell(index, c);
        if assign_result {
            return true;
        }
        proof {
            assert forall|g: Seq<u8>|
                is_solution(g) && #[trigger] admits(start, g) implies g[index as int] != c by {
                if g[index as int] == c {
                    lemma_admits_with_value(start, g, index as int, c);
                }
            }
        }
        board.restore(&board_state);
        k += 1;
    }
    proof {
        assert forall|g: Seq<u8>|
            is_solution(g) && #[trigger] admits(start, g) implies !candidates@.contains(
            g[index as int],
        ) by {
            if candidates@.contains(g[index as int]) {
                let j = choose|j: int|
                    0 <= j < candidates@.len() && candidates@[j] == g[index as int];
                assert(g[index as int] != candidates@[j]);
            }
        }
    }
    false
}

/// State `after` is state `before` with one more given: an open cell of
/// `before` was assigned one of its candidates, with all that follows from
/// it, and the assignment went through.
pub open spec fn given_added(before: Seq<CellState>, after: Seq<CellState>) -> bool {
    exists|i: int, d: u8|
        0 <= i < 81 && before[i].0 == 0 && is_digit(d) && mask_has(before[i].1, d)
            && #[trigger] assign_model(before, i, d) == (true, after)
}

/// Adds up to two givens to the board: picks an open cell by chance,
/// shuffles its candidates and fixes the cell to the first one that
/// `assign_cell` accepts, as `assign_first` does.
///
/// Answers how many givens it added. It stops before the second one when no
/// cell is open any more, or when the cell it picked takes none of its
/// candidates; the board is then left as it was before that pick, and has
/// no solution.
pub fn try_init_game(board: &mut Board) -> (count: u8)
    requires
        old(board).wf(),
    ensures
        final(board).wf(),
        refines(final(board)@, old(board)@),
        count <= 2,
        open_count(final(board)@) + count <= open_count(old(board)@),
        count == 0 ==> final(board)@ == old(board)@,
        solvable(old(board)@) && open_count(old(board)@) > 0 ==> count >= 1,
        count < 2 ==> open_count(final(board)@) == 0 || !solvable(final(board)@),
        count == 1 ==> given_added(old(board)@, final(board)@),
        count == 2 ==> exists|first: Seq<CellState>|
            given_added(old(board)@, first) && #[trigger] given_added(first, final(board)@),
{
    let mut count: u8 = 0;
    let ghost first = board@;
    proof {
        lemma_refines_reflexive(board@);
    }
    while count < 2
        invariant
            count <= 2,
            board.wf(),
            refines(board@, old(board)@),
            open_count(board@) + count <= open_count(old(board)@),
            count == 0 ==> board@ == old(board)@,
            count == 1 ==> first == board@ && given_added(old(board)@, first),
            count == 2 ==> given_added(old(board)@, first) && given_added(first, board@),
        decreases 2 - count,
    {
        if board.all_fixed() {
            proof {
                lemma_open_count_all_fixed(board@);
            }
            return count;
        }
        let ghost cur = board@;
        proof {
            let i = choose|i: int| 0 <= i < 81 && !((#[trigger] cur[i]).0 > 0);
            lemma_open_count_positive(cur, i);
        }
        let index: u8 = select_non_fixed(board);
        let mut candidates = board.cell(index as usize).collect_candidates();
        let ghost sorted = candidates@;
        shuffle(&mut candidates);
        proof {
            lemma_shuffled_contains(sorted, candidates@);
            lemma_mask_digits(cur[index as int].1);
            assert forall|k: int| 0 <= k < candidates@.len() implies is_digit(
                #[trigger] candidates@[k],
            ) && mask_has(cur[index as int].1, candidates@[k]) by {
                assert(candidates@.contains(candidates@[k]));
                assert(sorted.contains(candidates@[k]));
            }
        }

        if !assign_first(board, index, &candidates) {
            proof {
                assert forall|g: Seq<u8>| is_solution(g) implies !#[trigger] admits(cur, g) by {
                    if admits(cur, g) {
                        let d = g[index as int];
                        assert(is_digit(d));
                        assert(mask_has(cur[index as int].1, d));
                        assert(sorted.contains(d));
                    }
                }
            }
            return count;
        }
        proof {
            let k = choose|k: int|
                0 <= k < candidates@.len() && assign_model(
                    cur,
                    index as int,
                    #[trigger] candidates@[k],
                ) == (true, board@) && propagated(
                    with_value(cur, index as int, candidates@[k]),
                    board@,
                    true,
                );
            assert(is_digit(candidates@[k]) && mask_has(cur[index as int].1, candidates@[k]));
            assert(given_added(cur, board@));
            if count == 0 {
                first = board@;
            }
            let branch = with_value(cur, index as int, candidates@[k]);
            lemma_fix_open_cell(cur, index as int, candidates@[k]);
            lemma_refines_open_count(board@, branch);
            lemma_refines_transitive(board@, branch, cur);
            lemma_refines_transitive(board@, cur, old(board)@);
        }
        count += 1;
    }
    count
}

/// Searches for a solution as `Board::solve` does, but tries the candidates
/// of each cell in an order that chance gives, and gives up when it has
/// tried more than `STEP_CAP` candidates, those of the calls below it
/// counted in.
///
/// Answers whether the board now holds a solution, and how many candidates
/// were tried, which are no more than `search_size` counts. `false` leaves
/// the board as it was. With no more than `STEP_CAP` candidates tried,
/// `false` says that there is no solution; with more, it says nothing of
/// that. So a board that has a solution and whose `search_size` is within
/// the cap is solved, whatever chance gives.
pub fn try_solve_game(board: &mut Board) -> (r: (bool, usize))
    requires
        old(board).wf(),
    ensures
        final(board).wf(),
        r.0 ==> is_solved_state(final(board)@) && refines(final(board)@, old(board)@),
        !r.0 ==> final(board)@ == old(board)@,
        is_solved_state(old(board)@) ==> r == (true, 0usize) && final(board)@ == old(board)@,
        !solvable(old(board)@) ==> !r.0,
        !r.0 && r.1 <= STEP_CAP ==> !solvable(old(board)@),
        r.1 <= search_size(old(board)@),
        solvable(old(board)@) && search_size(old(board)@) <= STEP_CAP ==> r.0,
        r.1 <= (STEP_CAP + 1) * open_count(old(board)@),
    decreases open_count(old(board)@), 1int,
{
    if board.is_solved() {
        proof {
            lemma_refines_reflexive(board@);
            lemma_solved_admits_itself(board@);
        }
        return (true, 0);
    }
    let ghost start = board@;
    let (index, mut candidates) = board.next_candidate_cell();
    let ghost sorted = candidates@;
    shuffle(&mut candidates);
    proof {
        lemma_shuffled_contains(sorted, candidates@);
        assert forall|k: int| 0 <= k < candidates@.len() implies is_digit(
            #[trigger] candidates@[k],
        ) && mask_has(start[index as int].1, candidates@[k]) && start[index as int].0 == 0 by {
            assert(candidates@.contains(candidates@[k]));
            assert(sorted.contains(candidates@[k]));
            let j = choose|j: int| 0 <= j < sorted.len() && sorted[j] == candidates@[k];
            lemma_branch_refines(start, j);
            lemma_mask_digits(start[index as int].1);
            lemma_empty_and_full_mask();
        }
        if candidates@.len() > 0 {
            assert(is_digit(candidates@[0]));
        }
    }
    let r = try_candidates(board, index, &candidates);
    proof {
        lemma_list_size_shuffled(start, index as int, candidates@, sorted);
        if r.0 {
            lemma_solved_admits_itself(board@);
            lemma_refines_admits(board@, start, values_of(board@));
        }
        if !r.0 && r.1 <= STEP_CAP && solvable(start) {
            let g = choose|g: Seq<u8>| is_solution(g) && #[trigger] admits(start, g);
            lemma_branches_cover(start, g);
            assert(sorted.contains(g[index as int]));
            assert(candidates@.contains(g[index as int]));
        }
    }
    r
}

/// Tries the digits of the list at the open cell `index`, in the order of
/// the list: it assigns the digit and goes on with `try_solve_game`; if
/// either fails it goes back to the state before and on to the next digit.
/// It gives up when it is to try a digit and, those of the calls below it
/// counted in, `STEP_CAP` digits are tried already.
///
/// Answers whether the board now holds a solution, and how many digits were
/// tried, which are no more than `list_size` counts. `false` leaves the
/// board as it was. With no more than `STEP_CAP` digits tried, `false` says
/// that no solution holds a digit of the list at the cell.
pub fn try_candidates(board: &mut Board, index: u8, candidates: &Vec<u8>) -> (r: (bool, usize))
    requires
        old(board).wf(),
        index < 81,
        candidates@.len() > 0 ==> old(board)@[index as int].0 == 0,
        forall|k: int|
            0 <= k < candidates@.len() ==> is_digit(#[trigger] candidates@[k]) && mask_has(
                old(board)@[index as int].1,
                candidates@[k],
            ),
    ensures
        final(board).wf(),
        r.0 ==> is_solved_state(final(board)@) && refines(final(board)@, old(board)@),
        !r.0 ==> final(board)@ == old(board)@,
        candidates@.len() == 0 ==> r == (false, 0usize),
        candidates@.len() > 0 ==> r.1 >= 1,
        !r.0 && r.1 <= STEP_CAP ==> forall|g: Seq<u8>|
            is_solution(g) && #[trigger] admits(old(board)@, g) ==> !candidates@.contains(
                g[index as int],
            ),
        r.1 <= list_size(old(board)@, index as int, candidates@, 0),
        r.1 <= (STEP_CAP + 1) * open_count(old(board)@),
    decreases open_count(old(board)@), 0int,
{
    let ghost start = board@;
    let ghost open = open_count(start);
    let board_state = board.backup();
    let mut steps: usize = 0;
    proof {
        lemma_open_count_bound(start);
        assert((STEP_CAP + 1) * open == 101 * open) by (nonlinear_arith)
            requires
                STEP_CAP == 100,
        ;
    }

    let mut k: usize = 0;
    while k < candidates.len()
        invariant
            0 <= k <= candidates@.len(),
            board.wf(),
            start == old(board)@,
            board@ == start,
            board_state@ == start,
            open == open_count(start),
            open <= 81,
            index < 81,
            candidates@.len() > 0 ==> start[index as int].0 == 0,
            forall|j: int|
                0 <= j < candidates@.len() ==> is_digit(#[trigger] candidates@[j]) && mask_has(
                    start[index as int].1,
                    candidates@[j],
                ),
            k == 0 ==> steps == 0,
            k > 0 ==> open > 0 && 1 <= steps <= 100 + 101 * (open - 1),
            steps + list_size(start, index as int, candidates@, k as int) <= list_size(
                start,
                index as int,
                candidates@,
                0,
            ),
            steps <= STEP_CAP ==> forall|g: Seq<u8>, j: int|
                is_solution(g) && #[trigger] admits(start, g) && 0 <= j < k ==> g[index as int]
                    != #[trigger] candidates@[j],
        decreases candidates@.len() - k,
    {
        let c = candidates[k];
        proof {
            assert(is_digit(candidates@[k as int]));
            lemma_fix_open_cell(start, index as int, c);
        }
        steps += 1;
        if steps > STEP_CAP {
            return (false, steps);
        }
        let ghost branch = with_value(start, index as int, c);
        let assign_result = board.assign_cell(index, c);
        let mut tried: usize = 0;
        if assign_result {
            let ghost assigned = board@;
            proof {
                lemma_refines_open_count(assigned, branch);
                assert(101 * open_count(assigned) <= 101 * (open - 1)) by (nonlinear_arith)
                    requires
                        open_count(assigned) <= open - 1,
                ;
                assert((STEP_CAP + 1) * open_count(assigned) == 101 * open_count(assigned))
                    by (nonlinear_arith)
                    requires
                        STEP_CAP == 100,
                ;
            }
            let (solve_result, solve_steps) = try_solve_game(board);
            tried = solve_steps;

            if solve_result {
                proof {
                    lemma_refines_transitive(board@, assigned, branch);
                    lemma_refines_transitive(board@, branch, start);
                }
                return (true, steps + tried);
            }
        }
        proof {
            if steps + tried <= STEP_CAP {
                assert forall|g: Seq<u8>|
                    is_solution(g) && #[trigger] admits(start, g) implies g[index as int]
                    != c by {
                    if g[index as int] == c {
                        lemma_admits_with_value(start, g, index as int, c);
                        assert(admits(branch, g));
                    }
                }
            }
        }
        steps += tried;
        board.restore(&board_state);
        k += 1;
    }
    proof {
        if steps <= STEP_CAP {
            assert forall|g: Seq<u8>|
                is_solution(g) && #[trigger] admits(start, g) implies !candidates@.contains(
                g[index as int],
            ) by {
                if candidates@.contains(g[index as int]) {
                    let j = choose|j: int|
                        0 <= j < candidates@.len() && candidates@[j] == g[index as int];
                    assert(g[index as int] != candidates@[j]);
                }
            }
        }
    }
    (false, steps)
}

/// Setting up the grid `g` as a puzzle solves it: the grid is valid, and
/// the propagation of its clues alone ends in a solved state.
pub open spec fn solved_by_setup(g: Seq<u8>) -> bool {
    &&& is_valid_grid(g)
    &&& init_model(open_board(), g, 0).0
    &&& is_solved_state(init_model(open_board(), g, 0).1)
}

/// A solution of the grid `g` is sure to be found: the grid is valid, its
/// set-up goes through, a solution can come out of the state that the
/// set-up leaves, and the search of that state stays within `STEP_CAP`,
/// whatever the order in which it tries the digits.
pub open spec fn surely_found(g: Seq<u8>) -> bool {
    &&& is_valid_grid(g)
    &&& init_model(open_board(), g, 0).0
    &&& solvable(init_model(open_board(), g, 0).1)
    &&& search_size(init_model(open_board(), g, 0).1) <= STEP_CAP
}

/// With no other digit at cell `i` is a solution of the grid `g` sure to be
/// found: each other digit gives a grid that is not valid, or whose set-up
/// fails, or that has no solution, or whose search may go beyond the cap.
pub open spec fn no_other_digit_found(g: Seq<u8>, i: int) -> bool {
    forall|v: u8| is_digit(v) && v != g[i] ==> !#[trigger] surely_found(g.update(i, v))
}

/// Whether no other digit at cell `index` was found to lead to a solution
/// with the other clues of the grid.
///
/// Each other digit is put into the cell in turn; if the grid is then
/// valid, the puzzle is set up and `try_solve_game` is asked. `false` says
/// that a solution with another digit there was found; the grid is then
/// as it was. `true` says that none was found: every other digit gives a
/// grid that is not valid, or that cannot be set up, or that has no
/// solution, or whose search may go beyond the cap. Where setting up alone
/// solves the grid with another digit, chance decides nothing and the
/// answer is `false`. That none was found is no proof that there is none.
/// After `true` the cell holds the last digit that was tried.
pub fn is_game_has_unique_solution(game_vec: &mut Vec<u8>, index: usize) -> (unique: bool)
    requires
        is_grid(old(game_vec)@),
        index < 81,
    ensures
        is_grid(final(game_vec)@),
        forall|j: int| 0 <= j < 81 && j != index ==> #[trigger] final(game_vec)@[j] == old(
            game_vec,
        )@[j],
        !unique ==> final(game_vec)@ == old(game_vec)@ && exists|g: Seq<u8>|
            #[trigger] is_solution(g) && extends_clues(g, old(game_vec)@.update(index as int, 0u8))
                && g[index as int] != old(game_vec)@[index as int],
        unique ==> final(game_vec)@[index as int] == if old(game_vec)@[index as int] == 9 {
            8u8
        } else {
            9u8
        },
        unique ==> forall|v: u8|
            is_digit(v) && v != old(game_vec)@[index as int] ==> !#[trigger] solved_by_setup(
                old(game_vec)@.update(index as int, v),
            ),
        unique ==> no_other_digit_found(old(game_vec)@, index as int),
{
    let cell_value = game_vec[index];
    let ghost start = game_vec@;

    let mut value: u8 = 1;
    while value < 10
        invariant
            1 <= value <= 10,
            index < 81,
            start == old(game_vec)@,
            is_grid(start),
            cell_value == start[index as int],
            is_grid(game_vec@),
            forall|j: int| 0 <= j < 81 && j != index ==> #[trigger] game_vec@[j] == start[j],
            game_vec@[index as int] == if value == 1 || (value == 2 && cell_value == 1) {
                cell_value
            } else if cell_value == value - 1 {
                (value - 2) as u8
            } else {
                (value - 1) as u8
            },
            forall|v: u8|
                1 <= v < value && v != cell_value ==> !#[trigger] solved_by_setup(
                    start.update(index as int, v),
                ),
            forall|v: u8|
                1 <= v < value && v != cell_value ==> !#[trigger] surely_found(
                    start.update(index as int, v),
                ),
        decreases 10 - value,
    {
        if value != cell_value {
            game_vec.set(index, value);
            assert(game_vec@ =~= start.update(index as int, value));
            if Board::is_valid_game(game_vec) {
                let mut board = Board::new();
                if let Ok(_) = board.init_values(game_vec) {
                    let ghost ready = board@;
                    let (solved, _) = try_solve_game(&mut board);
                    if solved {
                        proof {
                            let g = values_of(board@);
                            lemma_solved_admits_itself(board@);
                            lemma_refines_admits(board@, ready, g);
                            lemma_refines_admits(ready, clue_state(game_vec@), g);
                            lemma_clue_state_admits(game_vec@, g);
                            assert(g[index as int] == value);
                            assert(extends_clues(g, start.update(index as int, 0u8)));
                        }
                        game_vec.set(index, cell_value);
                        assert(game_vec@ =~= start);
                        return false;
                    }
                }
            }
        }
        value += 1;
    }
    true
}

/// One of the indices that are still marked, by chance; 81 if none is.
pub fn next_diggable_index(diggable_cells: &[bool; 81]) -> (index: usize)
    ensures
        index <= 81,
        index < 81 ==> diggable_cells@[index as int],
        index == 81 ==> forall|i: int| 0 <= i < 81 ==> !#[trigger] diggable_cells@[i],
{
    let mut candidates: Vec<u8> = Vec::new();

    let mut index: u8 = 0;
    while index < 81
        invariant
            0 <= index <= 81,
            forall|k: int|
                0 <= k < candidates@.len() ==> #[trigger] candidates@[k] < 81
                    && diggable_cells@[candidates@[k] as int],
            candidates@.len() == 0 ==> forall|i: int|
                0 <= i < index ==> !#[trigger] diggable_cells@[i],
        decreases 81 - index,
    {
        if diggable_cells[index as usize] {
            candidates.push(index);
        }
        index += 1;
    }
    if candidates.len() > 0 {
        let ghost sorted = candidates@;
        shuffle(&mut candidates);
        proof {
            lemma_shuffled_contains(sorted, candidates@);
            assert(candidates@.contains(candidates@[0]));
            assert(sorted.contains(candidates@[0]));
        }
        return candidates[0] as usize;
    }
    return 81;
}

/// The clue at cell `i` of grid `g` is needed: without it a solution with
/// another digit at that cell extends the clues that are left.
pub open spec fn clue_needed(g: Seq<u8>, i: int) -> bool {
    exists|h: Seq<u8>| #[trigger]
        is_solution(h) && extends_clues(h, g.update(i, 0u8)) && h[i] != g[i]
}

/// A clue that is needed stays needed when another clue is taken away.
pub proof fn lemma_clue_stays_needed(g: Seq<u8>, i: int, j: int)
    requires
        0 <= i < g.len(),
        0 <= j < g.len(),
        i != j,
        clue_needed(g, i),
    ensures
        clue_needed(g.update(j, 0u8), i),
{
    let h = choose|h: Seq<u8>| #[trigger]
        is_solution(h) && extends_clues(h, g.update(i, 0u8)) && h[i] != g[i];
    let fewer = g.update(j, 0u8).update(i, 0u8);
    assert forall|k: int| 0 <= k < fewer.len() && #[trigger] fewer[k] != 0 implies h[k]
        == fewer[k] by {
        assert(g.update(i, 0u8)[k] == fewer[k]);
    }
    assert(extends_clues(h, fewer));
}

/// Grid `g` lies between the puzzle and the solution: each cell of `g` is
/// unset or as in `solution`, and each clue of `puzzle` is a clue of `g`.
pub open spec fn lies_between(puzzle: Seq<u8>, g: Seq<u8>, solution: Seq<u8>) -> bool {
    g.len() == 81 && forall|i: int|
        0 <= i < 81 ==> (#[trigger] g[i] == 0 || g[i] == solution[i]) && (puzzle[i] != 0 ==> g[i]
            == puzzle[i])
}

/// The hole at cell `i` of the puzzle was dug after a test: on some grid
/// between the puzzle and the solution that still held the clue, no other
/// digit at the cell was sure to be found.
pub open spec fn hole_tested(puzzle: Seq<u8>, solution: Seq<u8>, i: int) -> bool {
    exists|g: Seq<u8>| #[trigger]
        lies_between(puzzle, g, solution) && g[i] == solution[i] && no_other_digit_found(g, i)
}

/// A hole that was dug after a test stays so when more clues are dug.
pub proof fn lemma_hole_stays_tested(puzzle: Seq<u8>, fewer: Seq<u8>, solution: Seq<u8>, i: int)
    requires
        hole_tested(puzzle, solution, i),
        forall|j: int| 0 <= j < 81 ==> #[trigger] fewer[j] == 0 || fewer[j] == puzzle[j],
    ensures
        hole_tested(fewer, solution, i),
{
    let g = choose|g: Seq<u8>| #[trigger]
        lies_between(puzzle, g, solution) && g[i] == solution[i] && no_other_digit_found(g, i);
    assert forall|j: int| 0 <= j < 81 implies (#[trigger] g[j] == 0 || g[j] == solution[j]) && (
    fewer[j] != 0 ==> g[j] == fewer[j]) by {
        assert(fewer[j] == 0 || fewer[j] == puzzle[j]);
    }
    assert(lies_between(fewer, g, solution));
}

/// Digs holes into a grid: draws a target from 17 to 22 clues, then tests
/// the cells in an order that chance gives, each one once, and unsets a
/// cell if `is_game_has_unique_solution` finds no other digit for it. It
/// stops when the target is reached or every cell is tested.
///
/// Answers the puzzle as a string of 81 digits, `0` for a hole. Every cell
/// is a hole or as it was, and of a complete grid at least 17 clues are
/// left. More than 22 are left only where every clue that is left is
/// needed. Every hole was dug after a test that found no other digit for
/// its cell.
pub fn dig_holes(game: &str) -> (text: String)
    requires
        game@.len() == 81,
    ensures
        text@.len() == 81,
        text@ == render_digits(parse_grid(text@)),
        forall|i: int|
            0 <= i < 81 ==> #[trigger] parse_grid(text@)[i] == 0 || parse_grid(text@)[i]
                == parse_grid(game@)[i],
        is_complete(parse_grid(game@)) ==> 17 <= clue_count(parse_grid(text@)) <= 81,
        is_complete(parse_grid(game@)) ==> clue_count(parse_grid(text@)) <= 22 || forall|i: int|
            0 <= i < 81 && #[trigger] parse_grid(text@)[i] != 0 ==> clue_needed(
                parse_grid(text@),
                i,
            ),
        forall|i: int|
            0 <= i < 81 && #[trigger] parse_grid(text@)[i] == 0 && parse_grid(game@)[i] != 0
                ==> hole_tested(parse_grid(text@), parse_grid(game@), i),
        is_solution(parse_grid(game@)) ==> extends_clues(
            parse_grid(game@),
            parse_grid(text@),
        ) && solvable(clue_state(parse_grid(text@))),
{
    let remain_cells = MIN_CELLS + random_index(6);
    let mut can_dig_cells = [true;81];
    let mut game_vec = game_str_to_vec(game).unwrap();
    let mut total: u8 = 81;
    let ghost solution = parse_grid(game@);
    proof {
        lemma_clue_count_bounds(solution);
        lemma_count_true_bound(can_dig_cells@, 81);
    }

    while total > remain_cells
        invariant
            17 <= remain_cells <= 22,
            remain_cells <= total <= 81,
            solution == parse_grid(game@),
            is_grid(solution),
            is_grid(game_vec@),
            forall|i: int|
                0 <= i < 81 ==> #[trigger] game_vec@[i] == 0 || game_vec@[i] == solution[i],
            forall|i: int|
                0 <= i < 81 && #[trigger] can_dig_cells@[i] ==> game_vec@[i] == solution[i],
            is_complete(solution) ==> clue_count(game_vec@) == total,
            count_true(can_dig_cells@, 81) <= 81,
            forall|i: int|
                0 <= i < 81 && !#[trigger] can_dig_cells@[i] && game_vec@[i] != 0 ==> clue_needed(
                    game_vec@,
                    i,
                ),
            forall|i: int|
                0 <= i < 81 && #[trigger] game_vec@[i] == 0 && solution[i] != 0 ==> hole_tested(
                    game_vec@,
                    solution,
                    i,
                ),
        ensures
            total <= remain_cells || forall|i: int| 0 <= i < 81 ==> !#[trigger] can_dig_cells@[i],
        decreases count_true(can_dig_cells@, 81),
    {
        let start = next_diggable_index(&can_dig_cells);
        if start > 80 {
            break ;
        }
        let ghost before = game_vec@;
        let ghost marks = can_dig_cells@;
        if is_game_has_unique_solution(&mut game_vec, start) {
            proof {
                let dug = before.update(start as int, 0u8);
                assert(game_vec@.update(start as int, 0u8) =~= dug);
                assert forall|i: int|
                    0 <= i < 81 && #[trigger] dug[i] == 0 && solution[i] != 0 implies hole_tested(
                    dug,
                    solution,
                    i,
                ) by {
                    if i == start {
                        assert(marks[i]);
                        assert(lies_between(dug, before, solution));
                    } else {
                        assert(before[i] == 0);
                        lemma_hole_stays_tested(before, dug, solution, i);
                    }
                }
                assert forall|i: int|
                    0 <= i < 81 && i != start && !marks[i] && dug[i] != 0 implies clue_needed(
                    dug,
                    i,
                ) by {
                    assert(before[i] == dug[i]);
                    assert(clue_needed(before, i));
                    lemma_clue_stays_needed(before, i, start as int);
                }
                if is_complete(solution) {
                    assert(is_digit(solution[start as int]));
                    lemma_clue_count_change(before, start as int, game_vec@[start as int]);
                    assert(game_vec@ =~= before.update(start as int, game_vec@[start as int]));
                    lemma_clue_count_unset(game_vec@, start as int);
                }
            }
            game_vec.set(start, 0);
            total -= 1;
        }
        can_dig_cells[start] = false;
        proof {
            assert(can_dig_cells@ =~= marks.update(start as int, false));
            lemma_count_true_clear(marks, start as int, 81);
        }
    }
    let text = grid_to_digits(&game_vec);
    proof {
        lemma_parse_render_digits(game_vec@);
        if total > remain_cells {
            assert forall|i: int| 0 <= i < 81 && #[trigger] game_vec@[i] != 0 implies clue_needed(
                game_vec@,
                i,
            ) by {
                assert(!can_dig_cells@[i]);
            }
        }
        if is_solution(solution) {
            lemma_clue_state_admits(game_vec@, solution);
        }
    }
    text
}

/// Makes a solved grid by chance: gives nine open cells that chance picks
/// the digits 1 to 9, in this order, then adds givens with `try_init_game`
/// and completes the board with `try_solve_game`, starting over from the
/// nine givens whenever that fails. After `MAX_ROUNDS` rounds without a
/// solution it completes the blank board with `Board::solve`.
///
/// Answers the grid as a string of 81 digits from 1 to 9.
pub fn generate_game() -> (text: String)
    ensures
        text@.len() == 81,
        is_solution(parse_grid(text@)),
        text@ == render_grid(parse_grid(text@)),
{
    let mut board = Board::new();
    board.fill_candidates();

    // the digits 1 to 9, each in an open cell that chance picks
    let mut i: u8 = 0;
    while i < 9
        invariant
            0 <= i <= 9,
            board.wf(),
        decreases 9 - i,
    {
        if !board.all_fixed() {
            proof {
                let open = choose|j: int| 0 <= j < 81 && !((#[trigger] board@[j]).0 > 0);
                lemma_open_count_positive(board@, open);
            }
            let index = select_non_fixed(&board);
            board.assign_cell(index, i + 1);
        }
        i += 1;
    }

    let board_state = board.backup();
    try_init_game(&mut board);

    let mut round: usize = 0;
    while round < MAX_ROUNDS
        invariant
            0 <= round <= MAX_ROUNDS,
            board.wf(),
            board_wf(board_state@),
        decreases MAX_ROUNDS - round,
    {
        let (solved, _) = try_solve_game(&mut board);
        if solved {
            return solved_text(&board);
        }
        board.restore(&board_state);
        try_init_game(&mut board);
        round += 1;
    }

    board.reset();
    board.fill_candidates();
    proof {
        lemma_shifted_rows_is_solution();
        lemma_open_board_admits(shifted_rows_grid());
        assert(board@ =~= open_board());
    }
    let solved = board.solve();
    assert(solved);
    solved_text(&board)
}

/// The grid string of a solved board.
fn solved_text(board: &Board) -> (text: String)
    requires
        board.wf(),
        is_solved_state(board@),
    ensures
        text@.len() == 81,
        is_solution(parse_grid(text@)),
        text@ == render_grid(parse_grid(text@)),
{
    let text = board.serialize();
    proof {
        let g = values_of(board@);
        assert forall|i: int| 0 <= i < g.len() implies #[trigger] g[i] <= 9 by {
            assert(is_digit(g[i]));
        }
        lemma_parse_render(g);
    }
    text
}

} // verus!
