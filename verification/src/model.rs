//! What propagation and search compute, step by step.
//!
//! The functions of this module give the outcome of each step of
//! `Board` as a function of the state before it: whether the step went
//! through, and the state that it left. The order in which they visit
//! cells and digits is the order in which the board does its work.

use vstd::prelude::*;
use crate::cell::{CellState, eliminate_spec};
use crate::grid::unit_compatible;
use crate::state::{
    branch_cell, branch_digits, hidden_single, holder, is_solved_state, open_count, open_upto,
    values_of, with_value, lemma_open_count_fix,
};
use crate::units::{block_of, unit_cell};

verus! {

/// Whether a step went through, and the state that it left.
pub type Outcome = (bool, Seq<CellState>);

/// The outcome `r` of a step that started in state `b`, given that the
/// step has opened no cell. No step of propagation opens a cell, so this
/// is `r` wherever it is used; it is what shows that the steps below
/// come to an end.
pub open spec fn kept(b: Seq<CellState>, r: Outcome) -> Outcome {
    if open_count(r.1) <= open_count(b) {
        r
    } else {
        (false, b)
    }
}

/// The place in unit `u` at which digit `d` is a hidden single, if there is
/// one.
pub open spec fn hidden_single_at(b: Seq<CellState>, u: int, d: u8) -> Option<int> {
    if exists|k: int| hidden_single(b, u, d, k) {
        Some(choose|k: int| hidden_single(b, u, d, k))
    } else {
        None
    }
}

/// What `Board::assign_cell` does: fixes the cell, then takes the digit
/// from its row, its column and its block, and stops at the first of them
/// that fails.
pub open spec fn assign_model(b: Seq<CellState>, index: int, value: u8) -> Outcome
    decreases open_count(with_value(b, index, value)), 3int, 0int,
{
    let start = with_value(b, index, value);
    let row = kept(start, eliminate_model(start, index / 9, value, 0));
    if !row.0 {
        row
    } else {
        let col = kept(start, eliminate_model(row.1, 9 + index % 9, value, 0));
        if !col.0 {
            col
        } else {
            eliminate_model(col.1, 18 + block_of(index), value, 0)
        }
    }
}

/// What `Board::eliminate_unit_candidate` does from place `k` of unit `u`
/// on. A fixed cell is passed over. An open cell loses the candidate `c`,
/// or the step fails if it is its last one. If that leaves the cell one
/// candidate, the cell is assigned it. Then the unit is searched for
/// hidden singles, and the step fails if the unit holds a digit twice.
pub open spec fn eliminate_model(b: Seq<CellState>, u: int, c: u8, k: int) -> Outcome
    decreases open_count(b), 2int, 9 - k,
    when 0 <= u < 27 && b.len() == 81
    via eliminate_model_decreases
{
    if k < 0 || k >= 9 {
        (true, b)
    } else if b[unit_cell(u, k)].0 > 0 {
        eliminate_model(b, u, c, k + 1)
    } else {
        let (answer, cell) = eliminate_spec(b[unit_cell(u, k)], c);
        if answer is Err {
            (false, b)
        } else {
            let eliminated = kept(
                b,
                if cell.0 > 0 {
                    assign_model(b, unit_cell(u, k), cell.0)
                } else {
                    (true, b.update(unit_cell(u, k), cell))
                },
            );
            if !eliminated.0 {
                eliminated
            } else {
                let checked = kept(b, check_model(eliminated.1, u, 1));
                if !checked.0 {
                    checked
                } else if !unit_compatible(values_of(checked.1), u) {
                    (false, checked.1)
                } else {
                    eliminate_model(checked.1, u, c, k + 1)
                }
            }
        }
    }
}

/// Assigning to an open cell leaves fewer open cells.
#[via_fn]
proof fn eliminate_model_decreases(b: Seq<CellState>, u: int, c: u8, k: int) {
    if 0 <= k < 9 && b[unit_cell(u, k)].0 == 0 {
        let cell = eliminate_spec(b[unit_cell(u, k)], c).1;
        if cell.0 > 0 {
            lemma_open_count_fix(b, unit_cell(u, k), (cell.0, 0u16));
        }
    }
}

/// What `Board::check_unit_content` does from digit `d` on: each digit
/// that is a hidden single of unit `u` when its turn comes is assigned to
/// its cell, and the step stops at the first assignment that fails.
pub open spec fn check_model(b: Seq<CellState>, u: int, d: int) -> Outcome
    decreases open_count(b), 1int, 10 - d,
    when 0 <= u < 27 && b.len() == 81
    via check_model_decreases
{
    if d < 1 || d > 9 {
        (true, b)
    } else {
        match hidden_single_at(b, u, d as u8) {
            Some(k) => {
                let assigned = kept(b, assign_model(b, unit_cell(u, k), d as u8));
                if !assigned.0 {
                    assigned
                } else {
                    check_model(assigned.1, u, d + 1)
                }
            },
            None => check_model(b, u, d + 1),
        }
    }
}

/// A hidden single lies in an open cell, and assigning to it leaves
/// fewer open cells.
#[via_fn]
proof fn check_model_decreases(b: Seq<CellState>, u: int, d: int) {
    if 1 <= d <= 9 {
        match hidden_single_at(b, u, d as u8) {
            Some(k) => {
                assert(hidden_single(b, u, d as u8, k));
                assert(holder(b, u, d as u8, k));
                lemma_open_count_fix(b, unit_cell(u, k), (d as u8, 0u16));
            },
            None => {},
        }
    }
}

/// How `assign_model` goes on from the outcome of the row to that of the
/// column and of the block.
pub proof fn lemma_assign_model_steps(
    b: Seq<CellState>,
    index: int,
    value: u8,
    row: Outcome,
    col: Outcome,
)
    requires
        b.len() == 81,
        0 <= index < 81,
        row.1.len() == 81,
        row == eliminate_model(with_value(b, index, value), index / 9, value, 0),
        open_count(row.1) <= open_count(with_value(b, index, value)),
        row.0 ==> col.1.len() == 81 && col == eliminate_model(row.1, 9 + index % 9, value, 0)
            && open_count(col.1) <= open_count(with_value(b, index, value)),
    ensures
        assign_model(b, index, value) == if !row.0 {
            row
        } else if !col.0 {
            col
        } else {
            eliminate_model(col.1, 18 + block_of(index), value, 0)
        },
{
}

/// `eliminate_model` passes over a fixed cell, and ends after the last
/// cell.
pub proof fn lemma_eliminate_model_skip(b: Seq<CellState>, u: int, c: u8, k: int)
    requires
        0 <= u < 27,
        b.len() == 81,
        0 <= k <= 9,
        k < 9 ==> b[unit_cell(u, k)].0 > 0,
    ensures
        eliminate_model(b, u, c, k) == if k < 9 {
            eliminate_model(b, u, c, k + 1)
        } else {
            (true, b)
        },
{
}

/// `eliminate_model` fails at an open cell whose last candidate is `c`.
pub proof fn lemma_eliminate_model_fail(b: Seq<CellState>, u: int, c: u8, k: int)
    requires
        0 <= u < 27,
        b.len() == 81,
        0 <= k < 9,
        b[unit_cell(u, k)].0 == 0,
        eliminate_spec(b[unit_cell(u, k)], c).0 is Err,
    ensures
        eliminate_model(b, u, c, k) == (false, b),
{
}

/// How `eliminate_model` goes on at an open cell that can lose `c`: from
/// the outcome of the removal to that of the search for hidden singles and
/// to the next cell.
pub proof fn lemma_eliminate_model_steps(
    b: Seq<CellState>,
    u: int,
    c: u8,
    k: int,
    eliminated: Outcome,
    checked: Outcome,
)
    requires
        0 <= u < 27,
        b.len() == 81,
        0 <= k < 9,
        b[unit_cell(u, k)].0 == 0,
        eliminate_spec(b[unit_cell(u, k)], c).0 is Ok,
        eliminated == if eliminate_spec(b[unit_cell(u, k)], c).1.0 > 0 {
            assign_model(b, unit_cell(u, k), eliminate_spec(b[unit_cell(u, k)], c).1.0)
        } else {
            (true, b.update(unit_cell(u, k), eliminate_spec(b[unit_cell(u, k)], c).1))
        },
        eliminated.1.len() == 81,
        open_count(eliminated.1) <= open_count(b),
        eliminated.0 ==> checked.1.len() == 81 && checked == check_model(eliminated.1, u, 1)
            && open_count(checked.1) <= open_count(b),
    ensures
        eliminate_model(b, u, c, k) == if !eliminated.0 {
            eliminated
        } else if !checked.0 {
            checked
        } else if !unit_compatible(values_of(checked.1), u) {
            (false, checked.1)
        } else {
            eliminate_model(checked.1, u, c, k + 1)
        },
{
}

/// What `Board::init_values` does with the clues from cell `i` on: assigns
/// them one by one, and stops at the first assignment that fails.
pub open spec fn init_model(b: Seq<CellState>, clues: Seq<u8>, i: int) -> Outcome
    decreases 81 - i,
{
    if i < 0 || i >= 81 {
        (true, b)
    } else if clues[i] == 0 {
        init_model(b, clues, i + 1)
    } else {
        let assigned = assign_model(b, i, clues[i]);
        if !assigned.0 {
            assigned
        } else {
            init_model(assigned.1, clues, i + 1)
        }
    }
}

/// The outcome of the first assignment that goes through, of those of the
/// digits from place `k` of the list on to cell `index` of state `b`, each
/// one tried on `b` itself. Without one that goes through, the state stays
/// `b`.
pub open spec fn first_accepted(b: Seq<CellState>, index: int, digits: Seq<u8>, k: int) -> Outcome
    decreases digits.len() - k,
{
    if k < 0 || k >= digits.len() {
        (false, b)
    } else if assign_model(b, index, digits[k]).0 {
        assign_model(b, index, digits[k])
    } else {
        first_accepted(b, index, digits, k + 1)
    }
}

/// The open cells among the first `n` cells of `b`, in ascending order.
pub open spec fn open_cells_upto(b: Seq<CellState>, n: int) -> Seq<u8>
    decreases n,
{
    if n <= 0 {
        Seq::empty()
    } else if b[n - 1].0 == 0 {
        open_cells_upto(b, n - 1).push((n - 1) as u8)
    } else {
        open_cells_upto(b, n - 1)
    }
}

/// The open cells of `b`, in ascending order.
pub open spec fn open_cells(b: Seq<CellState>) -> Seq<u8> {
    open_cells_upto(b, 81)
}

/// The list of open cells holds the open cells, and as many as are
/// counted.
pub proof fn lemma_open_cells(b: Seq<CellState>, n: int)
    requires
        0 <= n <= 81,
        b.len() == 81,
    ensures
        open_cells_upto(b, n).len() == open_upto(b, n),
        forall|k: int|
            0 <= k < open_cells_upto(b, n).len() ==> #[trigger] open_cells_upto(b, n)[k] < n
                && b[open_cells_upto(b, n)[k] as int].0 == 0,
    decreases n,
{
    if n > 0 {
        lemma_open_cells(b, n - 1);
    }
}

/// What `Board::solve` does: nothing on a solved board; else it tries the
/// digits of the cell that it branches on.
pub open spec fn solve_model(b: Seq<CellState>) -> Outcome
    decreases open_count(b), 1int, 0int,
{
    if is_solved_state(b) {
        (true, b)
    } else {
        try_model(b, 0)
    }
}

/// What `Board::solve` does from the digit at place `k` of its list on: it
/// assigns the digit and solves what is left; if either fails it goes back
/// to `b` and on to the next digit. Without a digit left it fails.
pub open spec fn try_model(b: Seq<CellState>, k: int) -> Outcome
    decreases open_count(b), 0int, branch_digits(b).len() - k,
{
    if k < 0 || k >= branch_digits(b).len() {
        (false, b)
    } else {
        let assigned = assign_model(b, branch_cell(b), branch_digits(b)[k]);
        if assigned.0 && open_count(assigned.1) < open_count(b) {
            let solved = solve_model(assigned.1);
            if solved.0 {
                solved
            } else {
                try_model(b, k + 1)
            }
        } else {
            try_model(b, k + 1)
        }
    }
}

/// How many digits a search of state `b` tries at most, in whatever order
/// it takes the digits of each cell: none on a solved board, else those of
/// the list of the cell that it branches on.
pub open spec fn search_size(b: Seq<CellState>) -> nat
    decreases open_count(b), 1int, 0int,
{
    if is_solved_state(b) {
        0
    } else {
        list_size(b, branch_cell(b), branch_digits(b), 0)
    }
}

/// How many digits a search tries at most that tries the digits of the
/// list from place `k` on at cell `index` of state `b`: each digit itself,
/// and what the search of the state after its assignment tries, if the
/// assignment goes through.
pub open spec fn list_size(b: Seq<CellState>, index: int, digits: Seq<u8>, k: int) -> nat
    decreases open_count(b), 0int, digits.len() - k,
{
    if k < 0 || k >= digits.len() {
        0
    } else {
        let after = assign_model(b, index, digits[k]);
        1 + (if after.0 && open_count(after.1) < open_count(b) {
            search_size(after.1)
        } else {
            0
        }) + list_size(b, index, digits, k + 1)
    }
}

/// What one digit adds to the size of a list.
pub open spec fn digit_size(b: Seq<CellState>, index: int, d: u8) -> nat {
    list_size(b, index, seq![d], 0)
}

/// The size of a list from place `k` on is that of its digit at `k` and of
/// the list from the next place on.
pub proof fn lemma_list_size_step(b: Seq<CellState>, index: int, digits: Seq<u8>, k: int)
    requires
        0 <= k < digits.len(),
    ensures
        list_size(b, index, digits, k) == digit_size(b, index, digits[k]) + list_size(
            b,
            index,
            digits,
            k + 1,
        ),
{
    assert(list_size(b, index, seq![digits[k]], 1) == 0);
    assert(seq![digits[k]][0] == digits[k]);
}

/// Two lists that hold the same digits from their places on have the same
/// size from there.
pub proof fn lemma_list_size_same(
    b: Seq<CellState>,
    index: int,
    first: Seq<u8>,
    i: int,
    second: Seq<u8>,
    j: int,
)
    requires
        0 <= i <= first.len(),
        0 <= j <= second.len(),
        first.subrange(i, first.len() as int) == second.subrange(j, second.len() as int),
    ensures
        list_size(b, index, first, i) == list_size(b, index, second, j),
    decreases first.len() - i,
{
    let rest = first.subrange(i, first.len() as int);
    let other = second.subrange(j, second.len() as int);
    assert(rest.len() == other.len());
    if i < first.len() {
        assert(rest[0] == other[0]);
        assert(first.subrange(i + 1, first.len() as int) =~= rest.subrange(1, rest.len() as int));
        assert(second.subrange(j + 1, second.len() as int) =~= other.subrange(
            1,
            other.len() as int,
        ));
        lemma_list_size_same(b, index, first, i + 1, second, j + 1);
        lemma_list_size_step(b, index, first, i);
        lemma_list_size_step(b, index, second, j);
    }
}

/// The size of a list is that of one of its digits and of the list
/// without it.
pub proof fn lemma_list_size_remove(b: Seq<CellState>, index: int, digits: Seq<u8>, k: int, j: int)
    requires
        0 <= k <= j < digits.len(),
    ensures
        list_size(b, index, digits, k) == digit_size(b, index, digits[j]) + list_size(
            b,
            index,
            digits.remove(j),
            k,
        ),
    decreases j - k,
{
    lemma_list_size_step(b, index, digits, k);
    if k == j {
        assert(digits.subrange(k + 1, digits.len() as int) =~= digits.remove(j).subrange(
            k,
            digits.remove(j).len() as int,
        ));
        lemma_list_size_same(b, index, digits, k + 1, digits.remove(j), k);
    } else {
        lemma_list_size_remove(b, index, digits, k + 1, j);
        lemma_list_size_step(b, index, digits.remove(j), k);
    }
}

/// The size of a list does not depend on the order of its digits.
pub proof fn lemma_list_size_shuffled(
    b: Seq<CellState>,
    index: int,
    first: Seq<u8>,
    second: Seq<u8>,
)
    requires
        first.to_multiset() == second.to_multiset(),
    ensures
        list_size(b, index, first, 0) == list_size(b, index, second, 0),
    decreases first.len(),
{
    first.to_multiset_ensures();
    second.to_multiset_ensures();
    if first.len() > 0 {
        let d = first[0];
        assert(first.contains(d));
        assert(second.to_multiset().count(d) > 0);
        assert(second.contains(d));
        let j = choose|j: int| 0 <= j < second.len() && second[j] == d;
        assert(first.remove(0).to_multiset() =~= first.to_multiset().remove(d));
        assert(second.remove(j).to_multiset() =~= second.to_multiset().remove(d));
        lemma_list_size_shuffled(b, index, first.remove(0), second.remove(j));
        lemma_list_size_remove(b, index, first, 0, 0);
        lemma_list_size_remove(b, index, second, 0, j);
    }
}

} // verus!