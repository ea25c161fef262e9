//! The board: 81 cells, constraint propagation and backtracking search.

use vstd::prelude::*;
use crate::cell::{
    Cell, CellState, SOLVED_VALUE, is_digit, mask_count, mask_has, one_hot, state_wf, value_char,
    lemma_empty_and_full_mask, lemma_mask_with,
};
use crate::grid::{
    game_str_to_vec, is_grid, is_solution, is_valid_grid, parse_grid, render_grid, unit_compatible,
};
use crate::model::{
    assign_model, check_model, eliminate_model, hidden_single_at, init_model, open_cells,
    open_cells_upto, solve_model, try_model, lemma_assign_model_steps, lemma_eliminate_model_fail,
    lemma_eliminate_model_skip, lemma_eliminate_model_steps,
};
use crate::state::{
    admits, all_units_sound, blank_board, board_wf, branch_cell, branch_digits, branchable,
    cell_refines, clue_state, has_hidden_single, hidden_single, holder, is_most_constrained,
    is_solved_state, keeps_solutions, keeps_units, lacks_at, open_board, open_count, propagated,
    refines, solvable, state_of, unit_holds, unit_lacks, unit_open, unit_sound, units_after_assign,
    values_of, with_value, lemma_admits_with_value, lemma_assign_keeps_units, lemma_branch_cell,
    lemma_branch_refines, lemma_branches_cover, lemma_candidate_removed, lemma_closed_unit_stays,
    lemma_double_excludes, lemma_fix_open_cell, lemma_forced_digit, lemma_hidden_single_kept,
    lemma_keeps_solutions_chain, lemma_last_candidate_taken, lemma_peers_lack, lemma_refines_admits,
    lemma_refines_holds, lemma_refines_lacks, lemma_refines_open_count, lemma_refines_reflexive,
    lemma_refines_transitive, lemma_solved_admits_itself, lemma_units_after_assign,
};
use crate::units::{
    Unit, are_peers, block_of, get_block_unit_by_index, get_block_unit_by_pos, get_col_unit,
    get_row_unit, is_unit, unit_cell, unit_id, unit_seq, lemma_cell_in_three_units, lemma_unit_id,
};

verus! {

/// The state of a board after `fill_candidates`: every open cell has every
/// candidate.
pub open spec fn filled(b: Seq<CellState>) -> Seq<CellState> {
    Seq::new(
        b.len(),
        |i: int|
            if b[i].0 > 0 {
                b[i]
            } else {
                (0u8, SOLVED_VALUE)
            },
    )
}

/// The 81 cells of a game, row by row.
pub struct Board {
    cells: [Cell; 81],
}

impl View for Board {
    type V = Seq<CellState>;

    closed spec fn view(&self) -> Seq<CellState> {
        Seq::new(81, |i: int| self.cells[i]@)
    }
}

/// The one-character string of a cell value.
fn value_text(v: u8) -> (text: &'static str)
    ensures
        text@ == seq![value_char(v)],
{
    proof {
        reveal_strlit("1");
        reveal_strlit("2");
        reveal_strlit("3");
        reveal_strlit("4");
        reveal_strlit("5");
        reveal_strlit("6");
        reveal_strlit("7");
        reveal_strlit("8");
        reveal_strlit("9");
        reveal_strlit(".");
    }
    let text = match v {
        1 => "1",
        2 => "2",
        3 => "3",
        4 => "4",
        5 => "5",
        6 => "6",
        7 => "7",
        8 => "8",
        9 => "9",
        _ => ".",
    };
    assert(text@ =~= seq![value_char(v)]);
    text
}

impl Board {
    /// 81 cell states, the fixed ones without candidates.
    pub open spec fn wf(&self) -> bool {
        board_wf(self@)
    }

    /// A board of unset cells without candidates.
    pub fn new() -> (board: Self)
        ensures
            board.wf(),
            board@ == blank_board(),
    {
        let board = Board { cells: [Cell::new();81] };
        assert(board@ =~= blank_board());
        board
    }

    /// Unsets every cell and clears its candidates.
    pub fn reset(&mut self)
        ensures
            final(self).wf(),
            final(self)@ == blank_board(),
    {
        let mut i: usize = 0;
        while i < 81
            invariant
                0 <= i <= 81,
                forall|k: int| 0 <= k < i ==> #[trigger] self.cells[k]@ == (0u8, 0u16),
            decreases 81 - i,
        {
            self.cells[i].reset();
            i += 1;
        }
        assert(self@ =~= blank_board());
    }

    /// The cell at `index`.
    pub fn cell(&self, index: usize) -> (cell: &Cell)
        requires
            index < 81,
        ensures
            cell@ == self@[index as int],
    {
        &self.cells[index]
    }

    /// Gives every open cell every candidate.
    pub fn fill_candidates(&mut self)
        requires
            old(self).wf(),
        ensures
            final(self).wf(),
            final(self)@ == filled(old(self)@),
    {
        let mut i: usize = 0;
        while i < 81
            invariant
                0 <= i <= 81,
                old(self).wf(),
                forall|k: int| 0 <= k < i ==> #[trigger] self.cells[k]@ == filled(old(self)@)[k],
                forall|k: int| i <= k < 81 ==> #[trigger] self.cells[k]@ == old(self)@[k],
            decreases 81 - i,
        {
            self.cells[i].fill_candidates();
            i += 1;
        }
        assert(self@ =~= filled(old(self)@));
    }

    /// Takes over a grid of 81 values from 0 to 9, 0 for an unset cell, and
    /// clears all candidates. Anything else is refused and changes nothing.
    pub fn load_values(&mut self, game: &Vec<u8>) -> (loaded: bool)
        ensures
            loaded == is_grid(game@),
            loaded ==> final(self)@ == state_of(game@) && final(self).wf(),
            !loaded ==> final(self)@ == old(self)@,
    {
        if !Self::is_grid_values(game) {
            return false;
        }
        self.reset();
        let mut i: usize = 0;
        while i < 81
            invariant
                0 <= i <= 81,
                is_grid(game@),
                forall|k: int| 0 <= k < i ==> #[trigger] self.cells[k]@ == (game@[k], 0u16),
            decreases 81 - i,
        {
            self.cells[i].set_value(game[i]);
            i += 1;
        }
        assert(self@ =~= state_of(game@));
        true
    }

    /// Whether `game` holds 81 values from 0 to 9.
    pub fn is_grid_values(game: &Vec<u8>) -> (r: bool)
        ensures
            r == is_grid(game@),
    {
        if game.len() != 81 {
            return false;
        }
        let mut i: usize = 0;
        while i < 81
            invariant
                0 <= i <= 81,
                game@.len() == 81,
                forall|k: int| 0 <= k < i ==> #[trigger] game@[k] <= 9,
            decreases 81 - i,
        {
            if game[i] > 9 {
                return false;
            }
            i += 1;
        }
        true
    }

    /// Takes over a grid string of 81 characters, a digit from 1 to 9 for a
    /// set cell and any other character for an unset one, and clears all
    /// candidates. A string of another length is refused and changes
    /// nothing.
    pub fn load_game(&mut self, game: &str) -> (loaded: bool)
        ensures
            loaded == (game@.len() == 81),
            loaded ==> final(self)@ == state_of(parse_grid(game@)) && final(self).wf(),
            !loaded ==> final(self)@ == old(self)@,
    {
        match game_str_to_vec(game) {
            Some(values) => self.load_values(&values),
            None => false,
        }
    }

    /// Sets up a puzzle from a grid of 81 values from 0 to 9, 0 for an unset
    /// cell: gives every cell every candidate, then fixes the clues one by
    /// one, in the order of the cells, by `assign_cell`.
    ///
    /// Anything but such a grid is refused with `Err(false)` before the
    /// board is touched. `Err(false)` is also the answer when a clue leads
    /// to a contradiction, which happens for no puzzle that has a solution.
    /// After `Ok` every unit that still has an open cell holds no digit
    /// twice; a unit without one is not looked at.
    pub fn init_values(&mut self, game: &Vec<u8>) -> (r: Result<bool, bool>)
        ensures
            r == Ok::<bool, bool>(true) || r == Err::<bool, bool>(false),
            !is_grid(game@) ==> r is Err && final(self)@ == old(self)@,
            is_grid(game@) ==> (r is Ok, final(self)@) == init_model(open_board(), game@, 0),
            is_grid(game@) ==> final(self).wf() && keeps_solutions(
                clue_state(game@),
                final(self)@,
                r is Ok,
            ),
            r is Ok ==> refines(final(self)@, clue_state(game@)),
            r is Ok ==> all_units_sound(final(self)@),
    {
        if !Self::is_grid_values(game) {
            return Err(false);
        }
        self.reset();
        self.fill_candidates();
        assert(self@ =~= open_board());
        assert(all_units_sound(self@)) by {
            assert forall|u: int| 0 <= u < 27 implies #[trigger] unit_sound(self@, u) by {
                assert(unit_compatible(values_of(self@), u));
            }
        }
        let ghost clues = clue_state(game@);
        proof {
            lemma_empty_and_full_mask();
            assert forall|g: Seq<u8>| is_solution(g) && #[trigger] admits(clues, g) implies admits(
                self@,
                g,
            ) by {
                assert forall|i: int| 0 <= i < 81 implies mask_has(
                    (#[trigger] self@[i]).1,
                    g[i],
                ) && self@[i].0 == 0 by {
                    assert(is_digit(g[i]));
                }
            }
        }

        let mut i: usize = 0;
        while i < 81
            invariant
                0 <= i <= 81,
                self.wf(),
                is_grid(game@),
                clues == clue_state(game@),
                keeps_solutions(clues, self@, true),
                forall|j: int|
                    0 <= j < i && #[trigger] game@[j] != 0 ==> self@[j] == (game@[j], 0u16),
                init_model(open_board(), game@, 0) == init_model(self@, game@, i as int),
                all_units_sound(self@),
            decreases 81 - i,
        {
            let value = game[i];
            if value != 0 {
                let ghost cur = self@;
                let assigned = self.assign_cell(i as u8, value);
                proof {
                    let branch = with_value(cur, i as int, value);
                    assert forall|g: Seq<u8>|
                        is_solution(g) && #[trigger] admits(clues, g) implies assigned && admits(
                        self@,
                        g,
                    ) by {
                        assert(admits(cur, g));
                        assert(clues[i as int].0 > 0);
                        lemma_admits_with_value(cur, g, i as int, value);
                    }
                    assert forall|j: int|
                        0 <= j < i + 1 && #[trigger] game@[j] != 0 implies self@[j] == (
                        game@[j],
                        0u16,
                    ) by {
                        assert(cell_refines(self@[j], branch[j]));
                    }
                }
                if !assigned {
                    return Err(false);
                }
            }
            i += 1;
        }
        proof {
            assert forall|j: int| 0 <= j < 81 implies cell_refines(
                #[trigger] self@[j],
                clues[j],
            ) by {
                if game@[j] != 0 {
                    assert(self@[j] == (game@[j], 0u16));
                }
            }
        }
        Ok(true)
    }

    /// Sets up a puzzle from a grid string of 81 characters, a digit from 1
    /// to 9 for a clue and any other character for an unset cell, as
    /// `init_values` does from the grid that the string stands for.
    ///
    /// A string of another length is refused with `Err(false)` before the
    /// board is touched.
    pub fn init(&mut self, game: &str) -> (r: Result<bool, bool>)
        ensures
            r == Ok::<bool, bool>(true) || r == Err::<bool, bool>(false),
            game@.len() != 81 ==> r is Err && final(self)@ == old(self)@,
            game@.len() == 81 ==> (r is Ok, final(self)@) == init_model(
                open_board(),
                parse_grid(game@),
                0,
            ),
            game@.len() == 81 ==> final(self).wf() && keeps_solutions(
                clue_state(parse_grid(game@)),
                final(self)@,
                r is Ok,
            ),
            r is Ok ==> refines(final(self)@, clue_state(parse_grid(game@))),
            r is Ok ==> all_units_sound(final(self)@),
    {
        match game_str_to_vec(game) {
            Some(values) => self.init_values(&values),
            None => Err(false),
        }
    }

    /// A copy of the state of every cell.
    pub fn backup(&self) -> (snapshot: Vec<(u8, u16)>)
        ensures
            snapshot@ == self@,
    {
        let mut result: Vec<(u8, u16)> = Vec::with_capacity(81);
        let mut i: usize = 0;
        while i < 81
            invariant
                0 <= i <= 81,
                result@.len() == i,
                forall|k: int| 0 <= k < i ==> #[trigger] result@[k] == self@[k],
            decreases 81 - i,
        {
            result.push(self.cells[i].backup());
            i += 1;
        }
        assert(result@ =~= self@);
        result
    }

    /// Whether `data` is the state of a board: 81 cell states with values
    /// up to 9 and masks of nine bits, the fixed ones without candidates.
    pub fn is_board_state(data: &Vec<(u8, u16)>) -> (r: bool)
        ensures
            r == board_wf(data@),
    {
        if data.len() != 81 {
            return false;
        }
        let mut i: usize = 0;
        while i < 81
            invariant
                0 <= i <= 81,
                data@.len() == 81,
                forall|k: int|
                    0 <= k < i ==> state_wf(#[trigger] data@[k]) && (data@[k].0 > 0 ==> data@[k].1
                        == 0),
            decreases 81 - i,
        {
            let (value, candidates) = data[i];
            if value > 9 || candidates >= 512 || (value > 0 && candidates != 0) {
                return false;
            }
            i += 1;
        }
        true
    }

    /// Takes over the state of every cell from a snapshot.
    pub fn restore(&mut self, data: &Vec<(u8, u16)>)
        requires
            board_wf(data@),
        ensures
            final(self)@ == data@,
            final(self).wf(),
    {
        let mut i: usize = 0;
        while i < 81
            invariant
                0 <= i <= 81,
                board_wf(data@),
                forall|k: int| 0 <= k < i ==> #[trigger] self.cells[k]@ == data@[k],
            decreases 81 - i,
        {
            self.cells[i].restore(data[i]);
            i += 1;
        }
        assert(self@ =~= data@);
    }

    /// Whether no two fixed cells of the unit hold the same digit.
    pub fn is_unit_compatible(&self, unit: &Unit) -> (compatible: bool)
        requires
            self.wf(),
            is_unit(unit@),
        ensures
            compatible == unit_compatible(values_of(self@), unit_id(unit@)),
    {
        let ghost u = unit_id(unit@);
        let ghost g = values_of(self@);
        let mut result: u16 = 0;
        let mut k: usize = 0;
        proof {
            lemma_empty_and_full_mask();
        }
        while k < 9
            invariant
                0 <= k <= 9,
                self.wf(),
                0 <= u < 27,
                u == unit_id(unit@),
                unit@ == unit_seq(u),
                g == values_of(self@),
                result < 512,
                forall|d: u8|
                    is_digit(d) ==> (#[trigger] mask_has(result, d) <==> exists|j: int|
                        0 <= j < k && g[#[trigger] unit_cell(u, j)] == d),
                forall|i: int, j: int|
                    0 <= i < j < k && g[#[trigger] unit_cell(u, i)] != 0 ==> g[unit_cell(u, i)]
                        != g[#[trigger] unit_cell(u, j)],
            decreases 9 - k,
        {
            assert(unit@[k as int] == unit_cell(u, k as int));
            let cell = &self.cells[unit[k] as usize];
            assert(cell@ == self@[unit_cell(u, k as int)]);
            if cell.is_fixed() {
                let digit = cell.get_value();
                assert(digit == g[unit_cell(u, k as int)]);
                let value = one_hot(digit);
                proof {
                    lemma_mask_with(result, digit);
                }
                if (result & value) != 0 {
                    proof {
                        assert(mask_has(result, digit));
                        let j = choose|j: int| 0 <= j < k && g[#[trigger] unit_cell(u, j)] == digit;
                        assert(g[unit_cell(u, j)] == g[unit_cell(u, k as int)]);
                    }
                    return false;
                } else {
                    assert(!mask_has(result, digit));
                    let ghost before = result;
                    result += value;
                    assert forall|d: u8| is_digit(d) implies (#[trigger] mask_has(result, d)
                        <==> exists|j: int|
                        0 <= j < k + 1 && g[#[trigger] unit_cell(u, j)] == d) by {
                        if mask_has(result, d) {
                            if d == digit {
                                assert(g[unit_cell(u, k as int)] == d);
                            } else {
                                assert(mask_has(before, d));
                            }
                        }
                        if exists|j: int| 0 <= j < k + 1 && g[#[trigger] unit_cell(u, j)] == d {
                            let j = choose|j: int|
                                0 <= j < k + 1 && g[#[trigger] unit_cell(u, j)] == d;
                            if j < k {
                                assert(mask_has(before, d));
                            }
                        }
                    }
                }
            }
            k += 1;
        }
        true
    }

    /// Whether no unit holds a digit twice.
    pub fn all_units_compatible(&self) -> (compatible: bool)
        requires
            self.wf(),
        ensures
            compatible == (forall|u: int|
                0 <= u < 27 ==> #[trigger] unit_compatible(values_of(self@), u)),
    {
        let ghost g = values_of(self@);
        let mut i: u8 = 0;
        while i < 9
            invariant
                0 <= i <= 9,
                self.wf(),
                g == values_of(self@),
                forall|u: int| 0 <= u < i ==> #[trigger] unit_compatible(g, u),
                forall|u: int| 9 <= u < 9 + i ==> #[trigger] unit_compatible(g, u),
                forall|u: int| 18 <= u < 18 + i ==> #[trigger] unit_compatible(g, u),
            decreases 9 - i,
        {
            proof {
                lemma_unit_id(i as int);
                lemma_unit_id(9 + i as int);
                lemma_unit_id(18 + i as int);
            }
            let row = get_row_unit(i);
            if !self.is_unit_compatible(row) {
                return false;
            }
            let col = get_col_unit(i);
            if !self.is_unit_compatible(col) {
                return false;
            }
            let block = get_block_unit_by_index(i);
            if !self.is_unit_compatible(block) {
                return false;
            }
            i += 1;
        }
        true
    }

    /// The open cells, in ascending order.
    pub fn open_cells(&self) -> (cells: Vec<u8>)
        ensures
            cells@ == open_cells(self@),
    {
        let mut open: Vec<u8> = Vec::new();
        let mut i: u8 = 0;
        while i < 81
            invariant
                0 <= i <= 81,
                open@ == open_cells_upto(self@, i as int),
            decreases 81 - i,
        {
            if !self.cells[i as usize].is_fixed() {
                open.push(i);
            }
            i += 1;
        }
        open
    }

    /// Whether every cell is fixed.
    pub fn all_fixed(&self) -> (fixed: bool)
        ensures
            fixed == (forall|i: int| 0 <= i < 81 ==> (#[trigger] self@[i]).0 > 0),
    {
        let mut i: usize = 0;
        while i < 81
            invariant
                0 <= i <= 81,
                forall|k: int| 0 <= k < i ==> (#[trigger] self@[k]).0 > 0,
            decreases 81 - i,
        {
            if !self.cells[i].is_fixed() {
                assert(self@[i as int].0 == 0);
                return false;
            }
            i += 1;
        }
        true
    }

    /// Whether every cell is fixed and no unit holds a digit twice.
    pub fn is_solved(&self) -> (solved: bool)
        requires
            self.wf(),
        ensures
            solved == is_solved_state(self@),
    {
        let ghost g = values_of(self@);
        if !self.all_fixed() {
            proof {
                let i = choose|i: int| 0 <= i < 81 && !((#[trigger] self@[i]).0 > 0);
                assert(g[i] == 0);
            }
            return false;
        }
        assert forall|i: int| 0 <= i < 81 implies is_digit(#[trigger] g[i]) by {
            assert(self@[i].0 > 0);
        }
        self.all_units_compatible()
    }

    /// Whether `game` is a grid in which no unit holds a digit twice.
    pub fn is_valid_game(game: &Vec<u8>) -> (valid: bool)
        ensures
            valid == is_valid_grid(game@),
    {
        let mut board = Board::new();
        if !board.load_values(game) {
            return false;
        }
        assert(values_of(board@) =~= game@);
        board.all_units_compatible()
    }

    /// The cell of the unit at which `digit` is a hidden single, if there is
    /// one: no cell of the unit is fixed to the digit, and one open cell
    /// alone has it among its candidates.
    pub fn hidden_single_cell(&self, unit: &Unit, digit: u8) -> (found: Option<u8>)
        requires
            self.wf(),
            is_unit(unit@),
            is_digit(digit),
        ensures
            match found {
                Some(p) => exists|k: int|
                    #[trigger] hidden_single(self@, unit_id(unit@), digit, k) && p == unit_cell(
                        unit_id(unit@),
                        k,
                    ),
                None => forall|k: int| !#[trigger] hidden_single(self@, unit_id(unit@), digit, k),
            },
            match hidden_single_at(self@, unit_id(unit@), digit) {
                Some(k) => found == Some(unit_cell(unit_id(unit@), k) as u8),
                None => found.is_none(),
            },
    {
        let ghost u = unit_id(unit@);
        let ghost b = self@;
        let mut num_cells: u8 = 0;
        let mut cell_has_it: Option<u8> = None;
        let ghost mut first: int = 0;
        let ghost mut second: int = 0;
        let mut k: usize = 0;
        proof {
            lemma_empty_and_full_mask();
        }
        while k < 9
            invariant
                0 <= k <= 9,
                self.wf(),
                b == self@,
                is_digit(digit),
                0 <= u < 27,
                u == unit_id(unit@),
                unit@ == unit_seq(u),
                forall|j: int| 0 <= j < k ==> b[#[trigger] unit_cell(u, j)].0 != digit,
                num_cells <= k,
                num_cells == 0 ==> forall|j: int| 0 <= j < k ==> !#[trigger] holder(b, u, digit, j),
                num_cells == 1 ==> 0 <= first < k && holder(b, u, digit, first) && cell_has_it
                    == Some(unit_cell(u, first) as u8) && forall|j: int|
                    0 <= j < k && j != first ==> !#[trigger] holder(b, u, digit, j),
                num_cells >= 2 ==> 0 <= first < second < k && holder(b, u, digit, first) && holder(
                    b,
                    u,
                    digit,
                    second,
                ),
            decreases 9 - k,
        {
            assert(unit@[k as int] == unit_cell(u, k as int));
            let idx = unit[k];
            let cell = &self.cells[idx as usize];
            assert(cell@ == b[unit_cell(u, k as int)]);
            proof {
                lemma_empty_and_full_mask();
            }
            if cell.is_fixed() && cell.get_value() == digit {
                assert(unit_holds(b, u, digit));
                return None;
            } else if cell.has_candidate(digit).0 {
                assert(holder(b, u, digit, k as int));
                num_cells += 1;
                cell_has_it = Some(idx);
                proof {
                    if num_cells == 1 {
                        first = k as int;
                    } else if num_cells == 2 {
                        second = k as int;
                    }
                }
            } else {
                assert(!holder(b, u, digit, k as int));
            }
            k += 1;
        }
        if num_cells == 1 {
            assert(!unit_holds(b, u, digit));
            assert(hidden_single(b, u, digit, first));
            proof {
                let k = choose|k: int| hidden_single(b, u, digit, k);
                if k != first {
                    assert(!holder(b, u, digit, k));
                }
            }
            cell_has_it
        } else {
            assert forall|k: int| !#[trigger] hidden_single(b, u, digit, k) by {
                if hidden_single(b, u, digit, k) {
                    if num_cells == 0 {
                        assert(!holder(b, u, digit, k));
                    } else {
                        if k != first {
                            assert(!holder(b, u, digit, first));
                        } else {
                            assert(!holder(b, u, digit, second));
                        }
                    }
                }
            }
            None
        }
    }

    /// Fixes cell `index` to `value` and takes `value` from the candidates
    /// of its row, its column and its block, in this order, with all that
    /// follows from it. `false` says that a contradiction came up; the board
    /// is then left as far as propagation got.
    ///
    /// After `true` each of the three units of the cell holds no digit twice
    /// if it still has an open cell, and so does every other unit of which
    /// that held before.
    pub fn assign_cell(&mut self, index: u8, value: u8) -> (ok: bool)
        requires
            old(self).wf(),
            index < 81,
            is_digit(value),
        ensures
            (ok, final(self)@) == assign_model(old(self)@, index as int, value),
            propagated(with_value(old(self)@, index as int, value), final(self)@, ok),
            final(self)@[index as int] == (value, 0u16),
            ok ==> forall|j: int|
                0 <= j < 81 && #[trigger] are_peers(index as int, j) ==> lacks_at(
                    final(self)@,
                    j,
                    value,
                ),
            ok ==> units_after_assign(old(self)@, final(self)@, index as int),
        decreases open_count(with_value(old(self)@, index as int, value)), 3int,
    {
        let row = index / 9;
        let col = index % 9;

        self.cells[index as usize].set_value(value);
        let ghost start = self@;
        proof {
            assert(start =~= with_value(old(self)@, index as int, value));
            lemma_cell_in_three_units(index as int);
            lemma_unit_id(row as int);
            lemma_unit_id(9 + col as int);
            lemma_unit_id(18 + block_of(index as int));
            assert(unit_holds(start, row as int, value));
        }

        let row_unit = get_row_unit(row);
        let row_ok = self.eliminate_unit_candidate(row_unit, value);
        let ghost after_row = self@;
        proof {
            lemma_refines_open_count(after_row, start);
            assert(cell_refines(after_row[index as int], start[index as int]));
            if !row_ok {
                lemma_assign_model_steps(
                    old(self)@,
                    index as int,
                    value,
                    (row_ok, after_row),
                    (row_ok, after_row),
                );
            }
        }
        if !row_ok {
            return false;
        }
        assert(unit_holds(after_row, 9 + col as int, value));

        let col_unit = get_col_unit(col);
        let col_ok = self.eliminate_unit_candidate(col_unit, value);
        let ghost after_col = self@;
        proof {
            lemma_refines_transitive(after_col, after_row, start);
            lemma_refines_open_count(after_col, start);
            assert(cell_refines(after_col[index as int], start[index as int]));
            lemma_assign_model_steps(
                old(self)@,
                index as int,
                value,
                (row_ok, after_row),
                (col_ok, after_col),
            );
        }
        if !col_ok {
            return false;
        }
        assert(unit_holds(after_col, 18 + block_of(index as int), value));

        let block_unit = get_block_unit_by_pos(row, col);
        let block_ok = self.eliminate_unit_candidate(block_unit, value);
        proof {
            let done = self@;
            lemma_refines_transitive(done, after_col, start);
            lemma_refines_transitive(done, after_col, after_row);
            assert(cell_refines(done[index as int], start[index as int]));
            if block_ok {
                lemma_units_after_assign(
                    old(self)@,
                    index as int,
                    value,
                    after_row,
                    after_col,
                    done,
                );
                lemma_peers_lack(index as int, value, after_row, after_col, done);
            }
        }
        block_ok
    }

    /// Takes `candidate` from every open cell of the unit. A cell that is
    /// left with one candidate is fixed to it by `assign_cell`; after each
    /// open cell the unit is searched for hidden singles and for a digit
    /// that it holds twice. `false` says that a contradiction came up; the
    /// board is then left as far as propagation got.
    ///
    /// After `true` the unit holds no digit twice if it had an open cell;
    /// a unit without one is not looked at.
    pub fn eliminate_unit_candidate(&mut self, unit: &Unit, candidate: u8) -> (ok: bool)
        requires
            old(self).wf(),
            is_unit(unit@),
            is_digit(candidate),
        ensures
            (ok, final(self)@) == eliminate_model(old(self)@, unit_id(unit@), candidate, 0),
            final(self).wf(),
            refines(final(self)@, old(self)@),
            unit_holds(old(self)@, unit_id(unit@), candidate) ==> keeps_solutions(
                old(self)@,
                final(self)@,
                ok,
            ),
            ok ==> unit_lacks(final(self)@, unit_id(unit@), candidate),
            ok && unit_open(old(self)@, unit_id(unit@)) ==> unit_compatible(
                values_of(final(self)@),
                unit_id(unit@),
            ),
            ok ==> unit_sound(final(self)@, unit_id(unit@)),
            ok ==> keeps_units(old(self)@, final(self)@),
        decreases open_count(old(self)@), 2int,
    {
        let ghost u = unit_id(unit@);
        let ghost holds = unit_holds(old(self)@, u, candidate);
        let mut k: usize = 0;
        proof {
            lemma_refines_reflexive(self@);
        }
        while k < 9
            invariant
                0 <= k <= 9,
                self.wf(),
                old(self).wf(),
                is_digit(candidate),
                is_unit(unit@),
                0 <= u < 27,
                u == unit_id(unit@),
                holds == unit_holds(old(self)@, u, candidate),
                refines(self@, old(self)@),
                holds ==> keeps_solutions(old(self)@, self@, true),
                keeps_units(old(self)@, self@),
                forall|j: int|
                    0 <= j < k ==> lacks_at(self@, #[trigger] unit_cell(u, j), candidate),
                unit_compatible(values_of(self@), u) || (self@ == old(self)@ && forall|j: int|
                    0 <= j < k ==> old(self)@[#[trigger] unit_cell(u, j)].0 > 0),
                eliminate_model(old(self)@, u, candidate, 0) == eliminate_model(
                    self@,
                    u,
                    candidate,
                    k as int,
                ),
            decreases 9 - k,
        {
            let ghost cur = self@;
            proof {
                lemma_refines_open_count(cur, old(self)@);
                if holds {
                    lemma_refines_holds(cur, old(self)@, u, candidate);
                }
            }
            let done = self.eliminate_at(unit, candidate, k);
            proof {
                lemma_refines_transitive(self@, cur, old(self)@);
                if holds {
                    lemma_keeps_solutions_chain(old(self)@, cur, self@, done);
                }
            }
            if !done {
                return false;
            }
            proof {
                let next = self@;
                assert forall|j: int| 0 <= j < k + 1 implies lacks_at(
                    next,
                    #[trigger] unit_cell(u, j),
                    candidate,
                ) by {
                    if j < k {
                        lemma_refines_lacks(next, cur, unit_cell(u, j), candidate);
                    }
                }
            }
            k += 1;
        }
        proof {
            lemma_eliminate_model_skip(self@, u, candidate, 9);
            if unit_open(old(self)@, u) {
                let j = choose|j: int| 0 <= j < 9 && old(self)@[#[trigger] unit_cell(u, j)].0 == 0;
                assert(unit_compatible(values_of(self@), u));
            } else {
                lemma_closed_unit_stays(self@, old(self)@, u);
            }
        }
        true
    }

    /// The work of `eliminate_unit_candidate` on cell `k` of the unit: a
    /// fixed cell is passed over; an open cell loses the candidate, is
    /// assigned the one that is left if there is but one, and the unit is
    /// searched for hidden singles and for a digit that it holds twice.
    pub fn eliminate_at(&mut self, unit: &Unit, candidate: u8, k: usize) -> (ok: bool)
        requires
            old(self).wf(),
            is_unit(unit@),
            is_digit(candidate),
            k < 9,
        ensures
            final(self).wf(),
            refines(final(self)@, old(self)@),
            eliminate_model(old(self)@, unit_id(unit@), candidate, k as int) == if ok {
                eliminate_model(final(self)@, unit_id(unit@), candidate, k + 1)
            } else {
                (false, final(self)@)
            },
            unit_holds(old(self)@, unit_id(unit@), candidate) ==> keeps_solutions(
                old(self)@,
                final(self)@,
                ok,
            ),
            ok ==> lacks_at(final(self)@, unit_cell(unit_id(unit@), k as int), candidate),
            old(self)@[unit_cell(unit_id(unit@), k as int)].0 > 0 ==> ok && final(self)@ == old(
                self,
            )@,
            ok && old(self)@[unit_cell(unit_id(unit@), k as int)].0 == 0 ==> unit_compatible(
                values_of(final(self)@),
                unit_id(unit@),
            ),
            ok ==> keeps_units(old(self)@, final(self)@),
        decreases open_count(old(self)@), 1int,
    {
        let ghost u = unit_id(unit@);
        let ghost holds = unit_holds(old(self)@, u, candidate);
        let ghost cur = self@;
        assert(unit@ == unit_seq(u));
        assert(unit@[k as int] == unit_cell(u, k as int));
        let idx = unit[k];
        proof {
            lemma_refines_reflexive(cur);
        }
        if self.cells[idx as usize].is_fixed() {
            proof {
                lemma_eliminate_model_skip(cur, u, candidate, k as int);
            }
            return true;
        }
        let mut cell = self.cells[idx as usize];
        assert(cell@ == cur[idx as int]);
        match cell.eliminate_candidate(candidate) {
            Err(_) => {
                proof {
                    lemma_eliminate_model_fail(cur, u, candidate, k as int);
                    if holds {
                        lemma_last_candidate_taken(cur, u, candidate, k as int);
                    }
                }
                return false;
            },
            Ok(_) => {},
        }
        let assigned = if cell.is_fixed() {
            let value = cell.get_value();
            proof {
                lemma_fix_open_cell(cur, idx as int, value);
                if holds {
                    lemma_forced_digit(cur, u, candidate, k as int, value);
                }
            }
            let assigned = self.assign_cell(idx, value);
            proof {
                lemma_refines_transitive(self@, with_value(cur, idx as int, value), cur);
                if holds {
                    lemma_keeps_solutions_chain(
                        cur,
                        with_value(cur, idx as int, value),
                        self@,
                        assigned,
                    );
                }
                if assigned {
                    lemma_assign_keeps_units(cur, self@, idx as int);
                }
            }
            assigned
        } else {
            self.cells[idx as usize] = cell;
            proof {
                assert(self@ =~= cur.update(idx as int, (0u8, cell@.1)));
                lemma_candidate_removed(cur, u, candidate, k as int, cell@.1);
            }
            true
        };
        let ghost eliminated = self@;
        proof {
            lemma_refines_open_count(eliminated, cur);
            if !assigned {
                lemma_eliminate_model_steps(
                    cur,
                    u,
                    candidate,
                    k as int,
                    (assigned, eliminated),
                    (assigned, eliminated),
                );
            }
        }
        if !assigned {
            return false;
        }
        assert(lacks_at(eliminated, unit_cell(u, k as int), candidate)) by {
            if cell@.0 > 0 {
                assert(cell_refines(
                    eliminated[idx as int],
                    with_value(cur, idx as int, cell@.0)[idx as int],
                ));
            }
        }
        let checked = self.check_unit_content(unit);
        let ghost searched = self@;
        proof {
            lemma_refines_transitive(searched, eliminated, cur);
            lemma_refines_open_count(searched, cur);
            lemma_refines_lacks(searched, eliminated, unit_cell(u, k as int), candidate);
            lemma_eliminate_model_steps(
                cur,
                u,
                candidate,
                k as int,
                (assigned, eliminated),
                (checked, searched),
            );
            if holds {
                lemma_keeps_solutions_chain(cur, eliminated, searched, checked);
            }
        }
        if !checked {
            return false;
        }
        let compatible = self.is_unit_compatible(unit);
        proof {
            if holds && !compatible {
                lemma_double_excludes(searched, u);
                lemma_keeps_solutions_chain(cur, searched, searched, false);
            }
        }
        compatible
    }

    /// Looks in the unit for hidden singles, digit by digit from 1 to 9, and
    /// fixes each one that it finds by `assign_cell`. `false` says that a
    /// contradiction came up; the board is then left as far as propagation
    /// got.
    pub fn check_unit_content(&mut self, unit: &Unit) -> (ok: bool)
        requires
            old(self).wf(),
            is_unit(unit@),
        ensures
            (ok, final(self)@) == check_model(old(self)@, unit_id(unit@), 1),
            propagated(old(self)@, final(self)@, ok),
            !has_hidden_single(old(self)@, unit_id(unit@)) ==> ok && final(self)@ == old(self)@,
            ok && has_hidden_single(old(self)@, unit_id(unit@)) ==> open_count(final(self)@)
                < open_count(old(self)@),
            ok ==> keeps_units(old(self)@, final(self)@),
        decreases open_count(old(self)@), 0int,
    {
        let ghost u = unit_id(unit@);
        let mut candidate: u8 = 1;
        while candidate <= 9
            invariant
                1 <= candidate <= 10,
                self.wf(),
                old(self).wf(),
                is_unit(unit@),
                0 <= u < 27,
                u == unit_id(unit@),
                refines(self@, old(self)@),
                keeps_solutions(old(self)@, self@, true),
                keeps_units(old(self)@, self@),
                (self@ == old(self)@ && forall|d: u8, k: int|
                    1 <= d < candidate ==> !#[trigger] hidden_single(old(self)@, u, d, k)) || (
                open_count(self@) < open_count(old(self)@) && has_hidden_single(old(self)@, u)),
                check_model(old(self)@, u, 1) == check_model(self@, u, candidate as int),
            decreases 10 - candidate,
        {
            let ghost cur = self@;
            match self.hidden_single_cell(unit, candidate) {
                Some(p) => {
                    let ghost k = choose|k: int|
                        #[trigger] hidden_single(cur, u, candidate, k) && p == unit_cell(u, k);
                    proof {
                        assert(holder(cur, u, candidate, k));
                        lemma_fix_open_cell(cur, p as int, candidate);
                        lemma_refines_open_count(cur, old(self)@);
                        assert(has_hidden_single(old(self)@, u)) by {
                            if cur == old(self)@ {
                                assert(hidden_single(old(self)@, u, candidate, k));
                            }
                        }
                    }
                    let assigned = self.assign_cell(p, candidate);
                    proof {
                        if assigned {
                            lemma_assign_keeps_units(cur, self@, p as int);
                        }
                        lemma_refines_transitive(self@, with_value(cur, p as int, candidate), cur);
                        lemma_refines_transitive(self@, cur, old(self)@);
                        lemma_refines_open_count(self@, with_value(cur, p as int, candidate));
                        lemma_hidden_single_kept(cur, u, candidate, k);
                        lemma_keeps_solutions_chain(
                            cur,
                            with_value(cur, p as int, candidate),
                            self@,
                            assigned,
                        );
                        lemma_keeps_solutions_chain(old(self)@, cur, self@, assigned);
                    }
                    if !assigned {
                        return false;
                    }
                },
                None => {},
            }
            candidate += 1;
        }
        proof {
            if self@ == old(self)@ && forall|d: u8, k: int|
                1 <= d < candidate ==> !#[trigger] hidden_single(old(self)@, u, d, k) {
                assert(!has_hidden_single(old(self)@, u));
            }
        }
        true
    }

    /// The cell to branch on, and its candidates in ascending order: the
    /// first of the open cells with the fewest candidates, of those that
    /// have any. Cell 0 where there is none.
    pub fn next_candidate_cell(&self) -> (r: (u8, Vec<u8>))
        requires
            self.wf(),
        ensures
            r.0 == branch_cell(self@),
            r.1@ == branch_digits(self@),
            r.0 < 81,
            (exists|i: int| branchable(self@, i)) ==> is_most_constrained(self@, r.0 as int),
            (forall|i: int| !branchable(self@, i)) ==> r.0 == 0,
    {
        let mut index: u8 = 0;
        let mut min_candidates: u8 = 10;

        let mut idx: usize = 0;
        while idx < 81
            invariant
                0 <= idx <= 81,
                index < 81,
                min_candidates <= 10,
                min_candidates == 10 ==> index == 0 && forall|j: int|
                    0 <= j < idx ==> !#[trigger] branchable(self@, j),
                min_candidates < 10 ==> index < idx && branchable(self@, index as int)
                    && min_candidates == mask_count(self@[index as int].1) && forall|j: int|
                    0 <= j < idx && #[trigger] branchable(self@, j) ==> min_candidates
                        <= mask_count(self@[j].1) && (mask_count(self@[j].1) == min_candidates
                        ==> index <= j),
            decreases 81 - idx,
        {
            let cell = &self.cells[idx];
            if !cell.is_fixed() {
                let count = cell.num_candidates();
                if count > 0 && count < min_candidates {
                    index = idx as u8;
                    min_candidates = count;
                }
            }
            idx += 1;
        }

        let cell = &self.cells[index as usize];
        let candidates = cell.collect_candidates();
        proof {
            if min_candidates < 10 {
                assert(is_most_constrained(self@, index as int));
                lemma_branch_cell(self@, index as int);
            }
        }

        (index, candidates)
    }

    /// Searches for a solution, depth first: branches on the cell that
    /// `next_candidate_cell` names, tries its candidates in ascending order
    /// and goes back to the state before a candidate that failed.
    ///
    /// `true` says that the board now holds a solution, which came out of
    /// the state at the call. `false` says that no solution can come out of
    /// that state; the board is then as it was.
    pub fn solve(&mut self) -> (solved: bool)
        requires
            old(self).wf(),
        ensures
            (solved, final(self)@) == solve_model(old(self)@),
            final(self).wf(),
            solved == solvable(old(self)@),
            solved ==> is_solved_state(final(self)@) && refines(final(self)@, old(self)@),
            !solved ==> final(self)@ == old(self)@,
        decreases open_count(old(self)@),
    {
        if self.is_solved() {
            proof {
                lemma_solved_admits_itself(self@);
            }
            return true;
        }
        let (index, candidates) = self.next_candidate_cell();
        let board_state = self.backup();
        let ghost start = self@;

        let mut i: usize = 0;
        while i < candidates.len()
            invariant
                0 <= i <= candidates@.len(),
                self.wf(),
                start == old(self)@,
                self@ == start,
                board_state@ == start,
                index < 81,
                index == branch_cell(start),
                candidates@ == branch_digits(start),
                !is_solved_state(start),
                solve_model(start) == try_model(start, i as int),
                forall|g: Seq<u8>, j: int|
                    is_solution(g) && #[trigger] admits(start, g) && 0 <= j < i ==> g[index as int]
                        != #[trigger] candidates@[j],
            decreases candidates@.len() - i,
        {
            let candidate = candidates[i];
            proof {
                lemma_branch_refines(start, i as int);
            }
            let ghost branch = with_value(start, index as int, candidate);
            if self.assign_cell(index, candidate) {
                let ghost assigned = self@;
                proof {
                    lemma_refines_open_count(assigned, branch);
                }
                if self.solve() {
                    proof {
                        lemma_refines_transitive(self@, assigned, branch);
                        lemma_refines_transitive(self@, branch, start);
                        lemma_solved_admits_itself(self@);
                        lemma_refines_admits(self@, start, values_of(self@));
                    }
                    return true;
                }
            }
            proof {
                assert forall|g: Seq<u8>|
                    is_solution(g) && #[trigger] admits(start, g) implies g[index as int]
                    != candidate by {
                    if g[index as int] == candidate {
                        lemma_admits_with_value(start, g, index as int, candidate);
                        assert(admits(branch, g));
                    }
                }
            }
            self.restore(&board_state);
            i += 1;
        }
        proof {
            assert forall|g: Seq<u8>| is_solution(g) implies !#[trigger] admits(start, g) by {
                if admits(start, g) {
                    lemma_branches_cover(start, g);
                    let j = choose|j: int|
                        0 <= j < branch_digits(start).len() && #[trigger] branch_digits(start)[j]
                            == g[branch_cell(start)];
                    assert(g[index as int] != candidates@[j]);
                }
            }
        }
        false
    }

    /// The grid string of the board: the digit of every fixed cell, `.` for
    /// every open one.
    pub fn serialize(&self) -> (text: String)
        ensures
            text@ == render_grid(values_of(self@)),
    {
        let mut result = String::new();
        let mut i: usize = 0;
        while i < 81
            invariant
                0 <= i <= 81,
                result@.len() == i,
                forall|k: int| 0 <= k < i ==> #[trigger] result@[k] == value_char(self@[k].0),
            decreases 81 - i,
        {
            result.append(value_text(self.cells[i].get_value()));
            i += 1;
        }
        assert(result@ =~= render_grid(values_of(self@)));
        result
    }
}

/// Restoring the snapshot that `backup` took leaves the board as it was,
/// and so its grid string.
pub proof fn lemma_restore_backup(before: Board, snapshot: Seq<CellState>, after: Board)
    requires
        snapshot == before@,
        after@ == snapshot,
    ensures
        after@ == before@,
        render_grid(values_of(after@)) == render_grid(values_of(before@)),
{
}

/// Where a state admits one solution and no other, a search that answers
/// as `solve` does ends with that solution on the board.
pub proof fn lemma_unique_solution_found(
    before: Seq<CellState>,
    after: Seq<CellState>,
    solved: bool,
    g: Seq<u8>,
)
    requires
        before.len() == 81,
        is_solution(g),
        admits(before, g),
        forall|h: Seq<u8>| is_solution(h) && #[trigger] admits(before, h) ==> h == g,
        solved == solvable(before),
        solved ==> is_solved_state(after) && refines(after, before),
    ensures
        solved,
        values_of(after) == g,
{
    lemma_solved_admits_itself(after);
    lemma_refines_admits(after, before, values_of(after));
}

} // verus!
