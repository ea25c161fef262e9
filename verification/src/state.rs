//! Board states: sequences of 81 cell states, how they relate to the grids
//! that can still come out of them, and what propagation keeps.

use vstd::prelude::*;
use crate::cell::{
    CellState, SOLVED_VALUE, is_digit, mask_count, mask_digits, mask_has, state_wf,
    lemma_count_zero, lemma_empty_and_full_mask, lemma_mask_digits, lemma_single,
};
use crate::grid::{
    extends_clues, is_complete, is_grid, is_grid_text, is_solution, parse_grid, render_grid,
    unit_compatible, lemma_solution_unit_has_digit,
};
use crate::units::{
    are_peers, block_of, is_unit_of, unit_cell, lemma_cell_in_three_units, lemma_peer_in_unit,
};

verus! {

/// The values of a board state.
pub open spec fn values_of(b: Seq<CellState>) -> Seq<u8> {
    Seq::new(b.len(), |i: int| b[i].0)
}

/// The state of a board that holds the grid `g` and no candidates.
pub open spec fn state_of(g: Seq<u8>) -> Seq<CellState> {
    Seq::new(g.len(), |i: int| (g[i], 0u16))
}

/// The board on which every cell is unset and has no candidate.
pub open spec fn blank_board() -> Seq<CellState> {
    Seq::new(81, |i: int| (0u8, 0u16))
}

/// The board on which every cell is open and has every candidate.
pub open spec fn open_board() -> Seq<CellState> {
    Seq::new(81, |i: int| (0u8, SOLVED_VALUE))
}

/// The state from which a puzzle is solved: every clue fixed, every other
/// cell open with every candidate.
pub open spec fn clue_state(clues: Seq<u8>) -> Seq<CellState> {
    Seq::new(
        clues.len(),
        |i: int|
            if clues[i] != 0 {
                (clues[i], 0u16)
            } else {
                (0u8, SOLVED_VALUE)
            },
    )
}

/// 81 cell states, the fixed ones without candidates.
pub open spec fn board_wf(b: Seq<CellState>) -> bool {
    b.len() == 81 && forall|i: int|
        0 <= i < 81 ==> state_wf(#[trigger] b[i]) && (b[i].0 > 0 ==> b[i].1 == 0)
}

/// Every cell is fixed and no unit holds a digit twice.
pub open spec fn is_solved_state(b: Seq<CellState>) -> bool {
    is_solution(values_of(b))
}

/// Grid `g` can still come out of board state `b`: it is complete, it
/// agrees with every fixed cell and takes a candidate in every other one.
pub open spec fn admits(b: Seq<CellState>, g: Seq<u8>) -> bool {
    b.len() == 81 && is_complete(g) && forall|i: int|
        0 <= i < 81 ==> if (#[trigger] b[i]).0 > 0 {
            g[i] == b[i].0
        } else {
            mask_has(b[i].1, g[i])
        }
}

/// Some solution can still come out of board state `b`.
pub open spec fn solvable(b: Seq<CellState>) -> bool {
    exists|g: Seq<u8>| is_solution(g) && #[trigger] admits(b, g)
}

/// The state `b` with cell `i` fixed to `v`.
pub open spec fn with_value(b: Seq<CellState>, i: int, v: u8) -> Seq<CellState> {
    b.update(i, (v, 0u16))
}

/// How many of the first `n` cells of `b` are open.
pub open spec fn open_upto(b: Seq<CellState>, n: int) -> nat
    decreases n,
{
    if n <= 0 {
        0
    } else {
        open_upto(b, n - 1) + if b[n - 1].0 == 0 {
            1nat
        } else {
            0nat
        }
    }
}

/// How many cells of `b` are open.
pub open spec fn open_count(b: Seq<CellState>) -> nat {
    open_upto(b, b.len() as int)
}

/// Cell state `a` came out of cell state `b` by propagation: a fixed cell
/// stays as it is; an open one loses candidates, or is fixed to one of them.
pub open spec fn cell_refines(a: CellState, b: CellState) -> bool {
    if b.0 > 0 {
        a == b
    } else if a.0 > 0 {
        is_digit(a.0) && mask_has(b.1, a.0)
    } else {
        forall|d: u8| is_digit(d) && #[trigger] mask_has(a.1, d) ==> mask_has(b.1, d)
    }
}

/// Board state `a` came out of board state `b` by propagation, cell by
/// cell.
pub open spec fn refines(a: Seq<CellState>, b: Seq<CellState>) -> bool {
    a.len() == b.len() && forall|i: int| 0 <= i < a.len() ==> cell_refines(#[trigger] a[i], b[i])
}

/// Every solution that `before` admits is admitted by `after`, and `ok`
/// holds if there is one.
pub open spec fn keeps_solutions(before: Seq<CellState>, after: Seq<CellState>, ok: bool) -> bool {
    forall|g: Seq<u8>| is_solution(g) && #[trigger] admits(before, g) ==> ok && admits(after, g)
}

/// What every step of propagation does: `after` is well formed, it came
/// out of `before`, and it has lost no solution; a step that fails says
/// that there was none.
pub open spec fn propagated(before: Seq<CellState>, after: Seq<CellState>, ok: bool) -> bool {
    &&& board_wf(after)
    &&& refines(after, before)
    &&& keeps_solutions(before, after, ok)
}

/// Some cell of unit `u` is fixed to digit `d`.
pub open spec fn unit_holds(b: Seq<CellState>, u: int, d: u8) -> bool {
    exists|k: int| 0 <= k < 9 && b[#[trigger] unit_cell(u, k)].0 == d
}

/// Cell `i` is fixed, or `d` is not among its candidates.
pub open spec fn lacks_at(b: Seq<CellState>, i: int, d: u8) -> bool {
    b[i].0 > 0 || !mask_has(b[i].1, d)
}

/// No open cell of unit `u` has `d` among its candidates.
pub open spec fn unit_lacks(b: Seq<CellState>, u: int, d: u8) -> bool {
    forall|k: int| 0 <= k < 9 ==> lacks_at(b, #[trigger] unit_cell(u, k), d)
}

/// Some cell of unit `u` is open.
pub open spec fn unit_open(b: Seq<CellState>, u: int) -> bool {
    exists|k: int| 0 <= k < 9 && b[#[trigger] unit_cell(u, k)].0 == 0
}

/// Unit `u` is sound: it holds no digit twice, unless it has no open cell
/// left. Propagation looks at a unit only after it has worked on an open
/// cell of it, so a unit without one is never looked at.
pub open spec fn unit_sound(b: Seq<CellState>, u: int) -> bool {
    unit_open(b, u) ==> unit_compatible(values_of(b), u)
}

/// Every unit that is sound in `before` is sound in `after`.
pub open spec fn keeps_units(before: Seq<CellState>, after: Seq<CellState>) -> bool {
    forall|u: int| 0 <= u < 27 && #[trigger] unit_sound(before, u) ==> unit_sound(after, u)
}

/// What an assignment to cell `i` leaves of the units: the three units of
/// the cell are sound, and every other unit that was sound before.
pub open spec fn units_after_assign(before: Seq<CellState>, after: Seq<CellState>, i: int) -> bool {
    forall|u: int|
        0 <= u < 27 && (unit_sound(before, u) || is_unit_of(u, i)) ==> #[trigger] unit_sound(
            after,
            u,
        )
}

/// Every unit is sound.
pub open spec fn all_units_sound(b: Seq<CellState>) -> bool {
    forall|u: int| 0 <= u < 27 ==> #[trigger] unit_sound(b, u)
}

/// Cell `k` of unit `u` is open and has `d` among its candidates.
pub open spec fn holder(b: Seq<CellState>, u: int, d: u8, k: int) -> bool {
    b[unit_cell(u, k)].0 == 0 && mask_has(b[unit_cell(u, k)].1, d)
}

/// Digit `d` is a hidden single of unit `u` at its cell `k`: no cell of
/// the unit is fixed to `d`, and cell `k` is the only open one that has `d`
/// among its candidates.
pub open spec fn hidden_single(b: Seq<CellState>, u: int, d: u8, k: int) -> bool {
    &&& 0 <= k < 9
    &&& !unit_holds(b, u, d)
    &&& holder(b, u, d, k)
    &&& forall|j: int| 0 <= j < 9 && j != k ==> !#[trigger] holder(b, u, d, j)
}

/// Unit `u` has a hidden single.
pub open spec fn has_hidden_single(b: Seq<CellState>, u: int) -> bool {
    exists|d: u8, k: int| is_digit(d) && #[trigger] hidden_single(b, u, d, k)
}

/// Cell `i` is open and has a candidate: the search can branch on it.
pub open spec fn branchable(b: Seq<CellState>, i: int) -> bool {
    0 <= i < 81 && b[i].0 == 0 && mask_count(b[i].1) > 0
}

/// Cell `i` is the first among the cells that the search can branch on
/// with the fewest candidates.
pub open spec fn is_most_constrained(b: Seq<CellState>, i: int) -> bool {
    &&& branchable(b, i)
    &&& forall|j: int| #[trigger]
        branchable(b, j) ==> mask_count(b[i].1) <= mask_count(b[j].1) && (mask_count(b[j].1)
            == mask_count(b[i].1) ==> i <= j)
}

/// The cell that the search branches on: the most constrained one, or
/// cell 0 where there is none to branch on.
pub open spec fn branch_cell(b: Seq<CellState>) -> int {
    if exists|i: int| branchable(b, i) {
        choose|i: int| is_most_constrained(b, i)
    } else {
        0
    }
}

/// The digits that the search tries at the cell it branches on, in the
/// order in which it tries them.
pub open spec fn branch_digits(b: Seq<CellState>) -> Seq<u8> {
    mask_digits(b[branch_cell(b)].1)
}

/// A state came out of itself.
pub proof fn lemma_refines_reflexive(b: Seq<CellState>)
    ensures
        refines(b, b),
{
}

/// What came out of a state that came out of `c` came out of `c`.
pub proof fn lemma_refines_transitive(a: Seq<CellState>, b: Seq<CellState>, c: Seq<CellState>)
    requires
        refines(a, b),
        refines(b, c),
    ensures
        refines(a, c),
{
    assert forall|i: int| 0 <= i < a.len() implies cell_refines(#[trigger] a[i], c[i]) by {
        assert(cell_refines(a[i], b[i]));
        assert(cell_refines(b[i], c[i]));
    }
}

/// What comes out of a state that came out of `b` comes out of `b`.
pub proof fn lemma_refines_admits(a: Seq<CellState>, b: Seq<CellState>, g: Seq<u8>)
    requires
        refines(a, b),
        admits(a, g),
    ensures
        admits(b, g),
{
    assert forall|i: int| 0 <= i < 81 implies if (#[trigger] b[i]).0 > 0 {
        g[i] == b[i].0
    } else {
        mask_has(b[i].1, g[i])
    } by {
        assert(cell_refines(a[i], b[i]));
        assert(is_digit(g[i]));
    }
}

/// Of `n` cells at most `n` are open.
proof fn lemma_open_upto_bound(b: Seq<CellState>, n: int)
    requires
        0 <= n,
    ensures
        open_upto(b, n) <= n,
    decreases n,
{
    if n > 0 {
        lemma_open_upto_bound(b, n - 1);
    }
}

/// A state in which every fixed cell of another one is fixed has no more
/// open cells.
proof fn lemma_open_upto_monotone(a: Seq<CellState>, b: Seq<CellState>, n: int)
    requires
        0 <= n <= a.len(),
        a.len() == b.len(),
        forall|i: int| 0 <= i < n && #[trigger] b[i].0 > 0 ==> a[i].0 > 0,
    ensures
        open_upto(a, n) <= open_upto(b, n),
    decreases n,
{
    if n > 0 {
        lemma_open_upto_monotone(a, b, n - 1);
        assert(b[n - 1].0 > 0 ==> a[n - 1].0 > 0);
    }
}

/// How the count changes with one cell.
proof fn lemma_open_upto_update(b: Seq<CellState>, i: int, s: CellState, n: int)
    requires
        0 <= i < b.len(),
        0 <= n <= b.len(),
    ensures
        open_upto(b.update(i, s), n) + (if i < n && b[i].0 == 0 {
            1nat
        } else {
            0nat
        }) == open_upto(b, n) + (if i < n && s.0 == 0 {
            1nat
        } else {
            0nat
        }),
    decreases n,
{
    if n > 0 {
        lemma_open_upto_update(b, i, s, n - 1);
    }
}

/// There are at most as many open cells as cells.
pub proof fn lemma_open_count_bound(b: Seq<CellState>)
    ensures
        open_count(b) <= b.len(),
{
    lemma_open_upto_bound(b, b.len() as int);
}

/// Propagation never opens a cell.
pub proof fn lemma_refines_open_count(a: Seq<CellState>, b: Seq<CellState>)
    requires
        refines(a, b),
    ensures
        open_count(a) <= open_count(b),
{
    assert forall|i: int| 0 <= i < a.len() && #[trigger] b[i].0 > 0 implies a[i].0 > 0 by {
        assert(cell_refines(a[i], b[i]));
    }
    lemma_open_upto_monotone(a, b, a.len() as int);
}

/// Fixing an open cell leaves one open cell less.
pub proof fn lemma_open_count_fix(b: Seq<CellState>, i: int, s: CellState)
    requires
        0 <= i < b.len(),
        s.0 > 0,
    ensures
        open_count(b.update(i, s)) + (if b[i].0 == 0 {
            1nat
        } else {
            0nat
        }) == open_count(b),
{
    lemma_open_upto_update(b, i, s, b.len() as int);
}

/// An open cell among the first `n` is counted.
proof fn lemma_open_upto_positive(b: Seq<CellState>, n: int, i: int)
    requires
        0 <= i < n <= b.len(),
        b[i].0 == 0,
    ensures
        open_upto(b, n) > 0,
    decreases n,
{
    if i < n - 1 {
        lemma_open_upto_positive(b, n - 1, i);
    }
}

/// An open cell is counted.
pub proof fn lemma_open_count_positive(b: Seq<CellState>, i: int)
    requires
        0 <= i < b.len(),
        b[i].0 == 0,
    ensures
        open_count(b) > 0,
{
    lemma_open_upto_positive(b, b.len() as int, i);
}

/// Where the count is positive, a cell is open.
proof fn lemma_open_upto_witness(b: Seq<CellState>, n: int)
    requires
        0 <= n <= b.len(),
        open_upto(b, n) > 0,
    ensures
        exists|i: int| 0 <= i < n && (#[trigger] b[i]).0 == 0,
    decreases n,
{
    if n > 0 {
        if b[n - 1].0 != 0 {
            lemma_open_upto_witness(b, n - 1);
        }
    }
}

/// Without open cells the count is zero.
pub proof fn lemma_open_count_all_fixed(b: Seq<CellState>)
    requires
        forall|i: int| 0 <= i < b.len() ==> (#[trigger] b[i]).0 > 0,
    ensures
        open_count(b) == 0,
{
    if open_count(b) > 0 {
        lemma_open_upto_witness(b, b.len() as int);
    }
}

/// In a solution that `b` admits, an open cell does not hold the digit
/// that another cell of the same unit is fixed to.
pub proof fn lemma_fixed_peer_excludes(b: Seq<CellState>, g: Seq<u8>, u: int, d: u8, k: int)
    requires
        is_solution(g),
        admits(b, g),
        0 <= u < 27,
        0 <= k < 9,
        unit_holds(b, u, d),
        is_digit(d),
        b[unit_cell(u, k)].0 != d,
    ensures
        g[unit_cell(u, k)] != d,
{
    let kp = choose|kp: int| 0 <= kp < 9 && b[#[trigger] unit_cell(u, kp)].0 == d;
    assert(unit_compatible(g, u));
    assert(0 <= unit_cell(u, kp) < 81);
    assert(0 <= unit_cell(u, k) < 81);
    assert(b[unit_cell(u, kp)].0 > 0);
    assert(g[unit_cell(u, kp)] == d);
    assert(is_digit(g[unit_cell(u, k)]));
    if g[unit_cell(u, k)] == d {
        if b[unit_cell(u, k)].0 > 0 {
            assert(g[unit_cell(u, k)] == b[unit_cell(u, k)].0);
        }
        if kp < k {
            assert(g[unit_cell(u, kp)] != g[unit_cell(u, k)]);
        } else {
            assert(kp != k);
            assert(g[unit_cell(u, k)] != g[unit_cell(u, kp)]);
        }
    }
}

/// A state that admits a solution has no unit that holds a digit twice.
pub proof fn lemma_admits_compatible(b: Seq<CellState>, g: Seq<u8>, u: int)
    requires
        is_solution(g),
        admits(b, g),
        0 <= u < 27,
    ensures
        unit_compatible(values_of(b), u),
{
    let v = values_of(b);
    assert(unit_compatible(g, u));
    assert forall|j: int, k: int|
        0 <= j < k < 9 && v[#[trigger] unit_cell(u, j)] != 0 implies v[unit_cell(u, j)]
        != v[#[trigger] unit_cell(u, k)] by {
        assert(0 <= unit_cell(u, j) < 81);
        assert(0 <= unit_cell(u, k) < 81);
        assert(b[unit_cell(u, j)].0 > 0);
        assert(is_digit(g[unit_cell(u, k)]));
        if v[unit_cell(u, j)] == v[unit_cell(u, k)] {
            assert(b[unit_cell(u, k)].0 > 0);
            assert(g[unit_cell(u, j)] != g[unit_cell(u, k)]);
        }
    }
}

/// A solution that `b` admits holds a hidden single of `b` where `b` has
/// it.
pub proof fn lemma_hidden_single_forced(b: Seq<CellState>, g: Seq<u8>, u: int, d: u8, k: int)
    requires
        is_solution(g),
        admits(b, g),
        0 <= u < 27,
        is_digit(d),
        hidden_single(b, u, d, k),
    ensures
        g[unit_cell(u, k)] == d,
{
    lemma_solution_unit_has_digit(g, u, d);
    let j = choose|j: int| 0 <= j < 9 && g[#[trigger] unit_cell(u, j)] == d;
    assert(0 <= unit_cell(u, j) < 81);
    if b[unit_cell(u, j)].0 > 0 {
        assert(b[unit_cell(u, j)].0 == d);
        assert(unit_holds(b, u, d));
    } else {
        assert(holder(b, u, d, j));
    }
}

/// Refinement keeps what a cell has lost: a candidate does not come back.
pub proof fn lemma_refines_lacks(a: Seq<CellState>, b: Seq<CellState>, i: int, d: u8)
    requires
        refines(a, b),
        0 <= i < a.len(),
        is_digit(d),
        lacks_at(b, i, d),
    ensures
        lacks_at(a, i, d),
{
    assert(cell_refines(a[i], b[i]));
}

/// Fixing an open cell to one of its candidates is a step of refinement
/// that closes one cell.
pub proof fn lemma_fix_open_cell(b: Seq<CellState>, i: int, d: u8)
    requires
        board_wf(b),
        0 <= i < 81,
        b[i].0 == 0,
        is_digit(d),
        mask_has(b[i].1, d),
    ensures
        board_wf(with_value(b, i, d)),
        refines(with_value(b, i, d), b),
        open_count(with_value(b, i, d)) + 1 == open_count(b),
{
    lemma_open_count_fix(b, i, (d, 0u16));
}

/// A solution that holds `d` at cell `i` is still admitted when the cell
/// is fixed to `d`.
pub proof fn lemma_admits_with_value(b: Seq<CellState>, g: Seq<u8>, i: int, d: u8)
    requires
        0 <= i < 81,
        is_complete(g),
        b.len() == 81,
        g[i] == d,
        forall|j: int|
            0 <= j < 81 && j != i ==> if (#[trigger] b[j]).0 > 0 {
                g[j] == b[j].0
            } else {
                mask_has(b[j].1, g[j])
            },
    ensures
        admits(with_value(b, i, d), g),
{
    let w = with_value(b, i, d);
    assert(is_digit(g[i]));
    assert forall|j: int| 0 <= j < 81 implies if (#[trigger] w[j]).0 > 0 {
        g[j] == w[j].0
    } else {
        mask_has(w[j].1, g[j])
    } by {
        if j != i {
            assert(w[j] == b[j]);
        }
    }
}

/// The state of a puzzle admits exactly the complete grids that extend
/// its clues.
pub proof fn lemma_clue_state_admits(clues: Seq<u8>, g: Seq<u8>)
    requires
        is_grid(clues),
    ensures
        board_wf(clue_state(clues)),
        admits(clue_state(clues), g) <==> is_complete(g) && extends_clues(g, clues),
{
    let b = clue_state(clues);
    lemma_empty_and_full_mask();
    if is_complete(g) && extends_clues(g, clues) {
        assert forall|i: int| 0 <= i < 81 implies if (#[trigger] b[i]).0 > 0 {
            g[i] == b[i].0
        } else {
            mask_has(b[i].1, g[i])
        } by {
            assert(is_digit(g[i]));
        }
    }
    if admits(b, g) {
        assert forall|i: int| 0 <= i < clues.len() && #[trigger] clues[i] != 0 implies g[i]
            == clues[i] by {
            assert(b[i].0 > 0);
        }
    }
}

/// Every complete grid can still come out of the open board.
pub proof fn lemma_open_board_admits(g: Seq<u8>)
    requires
        is_complete(g),
    ensures
        board_wf(open_board()),
        admits(open_board(), g),
{
    lemma_empty_and_full_mask();
    let b = open_board();
    assert forall|i: int| 0 <= i < 81 implies if (#[trigger] b[i]).0 > 0 {
        g[i] == b[i].0
    } else {
        mask_has(b[i].1, g[i])
    } by {
        assert(is_digit(g[i]));
    }
}

/// Two states with the same values have the same sound units.
pub proof fn lemma_same_values_same_units(a: Seq<CellState>, b: Seq<CellState>)
    requires
        a.len() == 81,
        b.len() == 81,
        forall|i: int| 0 <= i < 81 ==> (#[trigger] a[i]).0 == b[i].0,
    ensures
        keeps_units(a, b),
        keeps_units(b, a),
{
    assert(values_of(a) =~= values_of(b));
    assert forall|u: int| 0 <= u < 27 implies unit_open(a, u) == unit_open(b, u) by {
        if unit_open(a, u) {
            let k = choose|k: int| 0 <= k < 9 && a[#[trigger] unit_cell(u, k)].0 == 0;
            assert(b[unit_cell(u, k)].0 == 0);
        }
        if unit_open(b, u) {
            let k = choose|k: int| 0 <= k < 9 && b[#[trigger] unit_cell(u, k)].0 == 0;
            assert(a[unit_cell(u, k)].0 == 0);
        }
    }
}

/// A unit that does not hold cell `i` is as sound after a change of cell
/// `i` as before.
pub proof fn lemma_other_unit_stays(b: Seq<CellState>, i: int, s: CellState, u: int)
    requires
        b.len() == 81,
        0 <= i < 81,
        0 <= u < 27,
        forall|k: int| 0 <= k < 9 ==> #[trigger] unit_cell(u, k) != i,
    ensures
        unit_sound(b.update(i, s), u) == unit_sound(b, u),
{
    let c = b.update(i, s);
    assert forall|k: int| 0 <= k < 9 implies c[#[trigger] unit_cell(u, k)] == b[unit_cell(u, k)]
        && values_of(c)[unit_cell(u, k)] == values_of(b)[unit_cell(u, k)] by {}
    if unit_open(b, u) {
        let k = choose|k: int| 0 <= k < 9 && b[#[trigger] unit_cell(u, k)].0 == 0;
        assert(c[unit_cell(u, k)].0 == 0);
    }
    if unit_open(c, u) {
        let k = choose|k: int| 0 <= k < 9 && c[#[trigger] unit_cell(u, k)].0 == 0;
        assert(b[unit_cell(u, k)].0 == 0);
    }
    if unit_compatible(values_of(b), u) {
        assert forall|j: int, k: int|
            0 <= j < k < 9 && values_of(c)[#[trigger] unit_cell(u, j)] != 0 implies values_of(
            c,
        )[unit_cell(u, j)] != values_of(c)[#[trigger] unit_cell(u, k)] by {
            assert(values_of(b)[unit_cell(u, j)] != values_of(b)[unit_cell(u, k)]);
        }
    }
    if unit_compatible(values_of(c), u) {
        assert forall|j: int, k: int|
            0 <= j < k < 9 && values_of(b)[#[trigger] unit_cell(u, j)] != 0 implies values_of(
            b,
        )[unit_cell(u, j)] != values_of(b)[#[trigger] unit_cell(u, k)] by {
            assert(values_of(c)[unit_cell(u, j)] != values_of(c)[unit_cell(u, k)]);
        }
    }
}

/// A unit without an open cell stays as it is, and so stays sound.
pub proof fn lemma_closed_unit_stays(a: Seq<CellState>, b: Seq<CellState>, u: int)
    requires
        refines(a, b),
        b.len() == 81,
        0 <= u < 27,
        !unit_open(b, u),
    ensures
        !unit_open(a, u),
        unit_sound(a, u),
{
    assert forall|k: int| 0 <= k < 9 implies a[#[trigger] unit_cell(u, k)].0 != 0 by {
        assert(b[unit_cell(u, k)].0 != 0);
        assert(cell_refines(a[unit_cell(u, k)], b[unit_cell(u, k)]));
    }
}

/// No solution can come out of a state in which an open cell of a unit
/// has as its last candidate a digit that the unit holds already.
pub proof fn lemma_last_candidate_taken(b: Seq<CellState>, u: int, c: u8, k: int)
    requires
        board_wf(b),
        0 <= u < 27,
        0 <= k < 9,
        is_digit(c),
        unit_holds(b, u, c),
        b[unit_cell(u, k)].0 == 0,
        mask_has(b[unit_cell(u, k)].1, c),
        mask_count(b[unit_cell(u, k)].1) == 1,
    ensures
        keeps_solutions(b, b, false),
{
    let i = unit_cell(u, k);
    assert forall|g: Seq<u8>| is_solution(g) && #[trigger] admits(b, g) implies false by {
        lemma_fixed_peer_excludes(b, g, u, c, k);
        lemma_single(b[i].1);
        assert(is_digit(g[i]));
        assert(mask_has(b[i].1, g[i]));
    }
}

/// Where an open cell of a unit has two candidates, one of them a digit
/// that the unit holds already, every solution holds the other one there.
pub proof fn lemma_forced_digit(b: Seq<CellState>, u: int, c: u8, k: int, e: u8)
    requires
        board_wf(b),
        0 <= u < 27,
        0 <= k < 9,
        is_digit(c),
        unit_holds(b, u, c),
        b[unit_cell(u, k)].0 == 0,
        forall|d: u8| is_digit(d) && mask_has(b[unit_cell(u, k)].1, d) ==> d == c || d == e,
    ensures
        keeps_solutions(b, with_value(b, unit_cell(u, k), e), true),
{
    let i = unit_cell(u, k);
    assert forall|g: Seq<u8>| is_solution(g) && #[trigger] admits(b, g) implies admits(
        with_value(b, i, e),
        g,
    ) by {
        lemma_fixed_peer_excludes(b, g, u, c, k);
        assert(is_digit(g[i]));
        assert(mask_has(b[i].1, g[i]));
        lemma_admits_with_value(b, g, i, e);
    }
}

/// Taking from an open cell of a unit a candidate that the unit holds
/// already is a step of refinement that loses no solution and changes no
/// value.
pub proof fn lemma_candidate_removed(b: Seq<CellState>, u: int, c: u8, k: int, mask: u16)
    requires
        board_wf(b),
        0 <= u < 27,
        0 <= k < 9,
        is_digit(c),
        b[unit_cell(u, k)].0 == 0,
        mask < 512,
        forall|d: u8| is_digit(d) && #[trigger] mask_has(mask, d) ==> mask_has(
            b[unit_cell(u, k)].1,
            d,
        ),
        forall|d: u8|
            is_digit(d) && d != c && mask_has(b[unit_cell(u, k)].1, d) ==> #[trigger] mask_has(
                mask,
                d,
            ),
    ensures
        board_wf(b.update(unit_cell(u, k), (0u8, mask))),
        refines(b.update(unit_cell(u, k), (0u8, mask)), b),
        open_count(b.update(unit_cell(u, k), (0u8, mask))) == open_count(b),
        unit_holds(b, u, c) ==> keeps_solutions(b, b.update(unit_cell(u, k), (0u8, mask)), true),
        keeps_units(b, b.update(unit_cell(u, k), (0u8, mask))),
{
    let i = unit_cell(u, k);
    let next = b.update(i, (0u8, mask));
    assert forall|j: int| 0 <= j < 81 implies cell_refines(#[trigger] next[j], b[j]) by {}
    lemma_open_upto_update(b, i, (0u8, mask), 81);
    lemma_same_values_same_units(b, next);
    if unit_holds(b, u, c) {
        assert forall|g: Seq<u8>| is_solution(g) && #[trigger] admits(b, g) implies admits(
            next,
            g,
        ) by {
            lemma_fixed_peer_excludes(b, g, u, c, k);
            assert(is_digit(g[i]));
            assert(mask_has(b[i].1, g[i]));
            assert forall|j: int| 0 <= j < 81 implies if (#[trigger] next[j]).0 > 0 {
                g[j] == next[j].0
            } else {
                mask_has(next[j].1, g[j])
            } by {
                if j != i {
                    assert(next[j] == b[j]);
                }
            }
        }
    }
}

/// Every solution holds a hidden single where the state has it.
pub proof fn lemma_hidden_single_kept(b: Seq<CellState>, u: int, d: u8, k: int)
    requires
        board_wf(b),
        0 <= u < 27,
        is_digit(d),
        hidden_single(b, u, d, k),
    ensures
        keeps_solutions(b, with_value(b, unit_cell(u, k), d), true),
{
    assert forall|g: Seq<u8>| is_solution(g) && #[trigger] admits(b, g) implies admits(
        with_value(b, unit_cell(u, k), d),
        g,
    ) by {
        lemma_hidden_single_forced(b, g, u, d, k);
        lemma_admits_with_value(b, g, unit_cell(u, k), d);
    }
}

/// After an assignment that took the digit from each of the three units of
/// the cell, no open peer of the cell has the digit as a candidate.
pub proof fn lemma_peers_lack(
    i: int,
    v: u8,
    row: Seq<CellState>,
    col: Seq<CellState>,
    done: Seq<CellState>,
)
    requires
        0 <= i < 81,
        is_digit(v),
        row.len() == 81,
        refines(col, row),
        refines(done, col),
        unit_lacks(row, i / 9, v),
        unit_lacks(col, 9 + i % 9, v),
        unit_lacks(done, 18 + block_of(i), v),
    ensures
        forall|j: int| 0 <= j < 81 && #[trigger] are_peers(i, j) ==> lacks_at(
            done,
            j,
            v,
        ),
{
    assert forall|j: int| 0 <= j < 81 && #[trigger] are_peers(i, j) implies lacks_at(
        done,
        j,
        v,
    ) by {
        lemma_peer_in_unit(i, j);
        let (u, k) = choose|u: int, k: int|
            (u == i / 9 || u == 9 + i % 9 || u == 18 + block_of(i)) && 0 <= k < 9
                && #[trigger] unit_cell(u, k) == j;
        if u == i / 9 {
            assert(lacks_at(row, unit_cell(u, k), v));
            lemma_refines_lacks(col, row, j, v);
            lemma_refines_lacks(done, col, j, v);
        } else if u == 9 + i % 9 {
            assert(lacks_at(col, unit_cell(u, k), v));
            lemma_refines_lacks(done, col, j, v);
        } else {
            assert(lacks_at(done, unit_cell(u, k), v));
        }
    }
}

/// No solution can come out of a state in which a unit holds a digit
/// twice.
pub proof fn lemma_double_excludes(b: Seq<CellState>, u: int)
    requires
        0 <= u < 27,
        !unit_compatible(values_of(b), u),
    ensures
        keeps_solutions(b, b, false),
{
    assert forall|g: Seq<u8>| is_solution(g) && #[trigger] admits(b, g) implies false by {
        lemma_admits_compatible(b, g, u);
    }
}

/// A unit that holds a digit still holds it after propagation.
pub proof fn lemma_refines_holds(a: Seq<CellState>, b: Seq<CellState>, u: int, d: u8)
    requires
        refines(a, b),
        b.len() == 81,
        0 <= u < 27,
        is_digit(d),
        unit_holds(b, u, d),
    ensures
        unit_holds(a, u, d),
{
    let k = choose|k: int| 0 <= k < 9 && b[#[trigger] unit_cell(u, k)].0 == d;
    assert(cell_refines(a[unit_cell(u, k)], b[unit_cell(u, k)]));
}

/// What an assignment leaves of the units, from what its three steps
/// leave.
pub proof fn lemma_units_after_assign(
    before: Seq<CellState>,
    i: int,
    v: u8,
    row: Seq<CellState>,
    col: Seq<CellState>,
    done: Seq<CellState>,
)
    requires
        before.len() == 81,
        0 <= i < 81,
        keeps_units(with_value(before, i, v), row),
        unit_sound(row, i / 9),
        keeps_units(row, col),
        unit_sound(col, 9 + i % 9),
        keeps_units(col, done),
        unit_sound(done, 18 + block_of(i)),
    ensures
        units_after_assign(before, done, i),
{
    lemma_cell_in_three_units(i);
    assert forall|u: int|
        0 <= u < 27 && (unit_sound(before, u) || is_unit_of(u, i)) implies #[trigger] unit_sound(
        done,
        u,
    ) by {
        if u == i / 9 {
            assert(unit_sound(col, u));
        } else if u == 9 + i % 9 {
        } else if u == 18 + block_of(i) {
        } else {
            assert forall|k: int| 0 <= k < 9 implies #[trigger] unit_cell(u, k) != i by {}
            lemma_other_unit_stays(before, i, (v, 0u16), u);
            assert(unit_sound(with_value(before, i, v), u));
            assert(unit_sound(row, u));
            assert(unit_sound(col, u));
        }
    }
}

/// An assignment leaves every unit sound that was sound before or is a
/// unit of the cell.
pub proof fn lemma_assign_keeps_units(before: Seq<CellState>, after: Seq<CellState>, i: int)
    requires
        units_after_assign(before, after, i),
    ensures
        keeps_units(before, after),
{
}

/// What loses no solution in two steps loses none in both.
pub proof fn lemma_keeps_solutions_chain(
    a: Seq<CellState>,
    b: Seq<CellState>,
    c: Seq<CellState>,
    ok: bool,
)
    requires
        keeps_solutions(a, b, true),
        keeps_solutions(b, c, ok),
    ensures
        keeps_solutions(a, c, ok),
{
}

/// A solved state admits its own grid.
pub proof fn lemma_solved_admits_itself(b: Seq<CellState>)
    requires
        b.len() == 81,
        is_solved_state(b),
    ensures
        admits(b, values_of(b)),
{
    let g = values_of(b);
    assert forall|i: int| 0 <= i < 81 implies (#[trigger] b[i]).0 > 0 && g[i] == b[i].0 by {
        assert(is_digit(g[i]));
    }
}

/// In a solved board every unit holds every digit exactly once.
pub proof fn lemma_solved_units_complete(b: Seq<CellState>, u: int, d: u8)
    requires
        is_solved_state(b),
        0 <= u < 27,
        is_digit(d),
    ensures
        exists|k: int|
            0 <= k < 9 && b[#[trigger] unit_cell(u, k)].0 == d && forall|j: int|
                0 <= j < 9 && b[#[trigger] unit_cell(u, j)].0 == d ==> j == k,
{
    let g = values_of(b);
    lemma_solution_unit_has_digit(g, u, d);
    let k = choose|k: int| 0 <= k < 9 && g[#[trigger] unit_cell(u, k)] == d;
    assert(unit_compatible(g, u));
    assert(0 <= unit_cell(u, k) < 81);
    assert forall|j: int| 0 <= j < 9 && b[#[trigger] unit_cell(u, j)].0 == d implies j == k by {
        assert(0 <= unit_cell(u, j) < 81);
        if j < k {
            assert(g[unit_cell(u, j)] != g[unit_cell(u, k)]);
        } else if k < j {
            assert(g[unit_cell(u, k)] != g[unit_cell(u, j)]);
        }
    }
    assert(b[unit_cell(u, k)].0 == d);
}

/// Loading a grid string of digits and `.` and writing the board out
/// again gives the string back.
pub proof fn lemma_load_serialize_round_trip(text: Seq<char>)
    requires
        is_grid_text(text),
    ensures
        render_grid(values_of(state_of(parse_grid(text)))) == text,
{
    assert(render_grid(values_of(state_of(parse_grid(text)))) =~= text);
}

/// There is one most constrained cell at most, and the search branches
/// on it.
pub proof fn lemma_branch_cell(b: Seq<CellState>, i: int)
    requires
        is_most_constrained(b, i),
    ensures
        branch_cell(b) == i,
{
    assert(branchable(b, i));
    let c = choose|c: int| is_most_constrained(b, c);
    assert(branchable(b, c));
}

/// Cell `m` is the first of the cells before `n` that the search can
/// branch on with the fewest candidates.
pub open spec fn least_upto(b: Seq<CellState>, n: int, m: int) -> bool {
    &&& 0 <= m < n
    &&& branchable(b, m)
    &&& forall|j: int|
        0 <= j < n && #[trigger] branchable(b, j) ==> mask_count(b[m].1) <= mask_count(b[j].1)
            && (mask_count(b[j].1) == mask_count(b[m].1) ==> m <= j)
}

/// Among the first `n` cells, if one can be branched on, one is the most
/// constrained of them.
proof fn lemma_most_constrained_upto(b: Seq<CellState>, n: int)
    requires
        0 <= n <= 81,
    ensures
        (forall|j: int| 0 <= j < n ==> !branchable(b, j)) || exists|m: int| least_upto(b, n, m),
    decreases n,
{
    if n > 0 {
        lemma_most_constrained_upto(b, n - 1);
        if forall|j: int| 0 <= j < n - 1 ==> !branchable(b, j) {
            if branchable(b, n - 1) {
                assert(least_upto(b, n, n - 1));
            }
        } else {
            let before = n - 1;
            let p = choose|m: int| least_upto(b, before, m);
            let count = mask_count(b[p].1);
            let last = mask_count(b[n - 1].1);
            if branchable(b, n - 1) && last < count {
                assert(least_upto(b, n, n - 1)) by {
                    assert forall|j: int| 0 <= j < n && #[trigger] branchable(b, j) implies last
                        <= mask_count(b[j].1) && (mask_count(b[j].1) == last ==> n - 1 <= j) by {
                        if j < n - 1 {
                            assert(count <= mask_count(b[j].1));
                        }
                    }
                }
            } else {
                assert(least_upto(b, n, p)) by {
                    assert forall|j: int| 0 <= j < n && #[trigger] branchable(b, j) implies count
                        <= mask_count(b[j].1) && (mask_count(b[j].1) == count ==> p <= j) by {
                        if j < n - 1 {
                            assert(count <= mask_count(b[j].1) && (mask_count(b[j].1) == count
                                ==> p <= j));
                        }
                    }
                }
            }
        }
    }
}

/// If a cell can be branched on, one is the most constrained.
pub proof fn lemma_most_constrained_exists(b: Seq<CellState>, w: int)
    requires
        branchable(b, w),
    ensures
        exists|m: int| is_most_constrained(b, m),
{
    lemma_most_constrained_upto(b, 81);
    let m = choose|m: int| least_upto(b, 81, m);
    assert(is_most_constrained(b, m));
}

/// Where the search branches, it branches on a cell of the board. Where it
/// has a digit to try, the cell is open and the digit is one of its
/// candidates, so that fixing it is a step of refinement.
pub proof fn lemma_branch_refines(b: Seq<CellState>, k: int)
    requires
        board_wf(b),
        0 <= k < branch_digits(b).len(),
    ensures
        0 <= branch_cell(b) < 81,
        is_digit(branch_digits(b)[k]),
        board_wf(with_value(b, branch_cell(b), branch_digits(b)[k])),
        refines(with_value(b, branch_cell(b), branch_digits(b)[k]), b),
        open_count(with_value(b, branch_cell(b), branch_digits(b)[k])) < open_count(b),
{
    let i = branch_cell(b);
    if exists|i: int| branchable(b, i) {
        let w = choose|i: int| branchable(b, i);
        lemma_most_constrained_exists(b, w);
        let m = choose|m: int| is_most_constrained(b, m);
        assert(branchable(b, m));
    }
    lemma_mask_digits(b[i].1);
    lemma_empty_and_full_mask();
    assert(b[i].0 == 0);
    lemma_fix_open_cell(b, i, branch_digits(b)[k]);
}

/// The branches of a state lose no solution: a solution that a state
/// admits, if the state is not solved yet, takes at the cell that the
/// search branches on one of the digits that the search tries.
pub proof fn lemma_branches_cover(b: Seq<CellState>, g: Seq<u8>)
    requires
        board_wf(b),
        !is_solved_state(b),
        is_solution(g),
        admits(b, g),
    ensures
        0 <= branch_cell(b) < 81,
        exists|k: int|
            0 <= k < branch_digits(b).len() && #[trigger] branch_digits(b)[k] == g[branch_cell(b)],
        forall|k: int|
            0 <= k < branch_digits(b).len() && #[trigger] branch_digits(b)[k] == g[branch_cell(b)]
                ==> admits(with_value(b, branch_cell(b), branch_digits(b)[k]), g),
{
    let i = branch_cell(b);
    if exists|i: int| branchable(b, i) {
        let w = choose|i: int| branchable(b, i);
        lemma_most_constrained_exists(b, w);
        let m = choose|m: int| is_most_constrained(b, m);
        assert(branchable(b, m));
        assert(is_digit(g[i]));
        assert(b[i].0 == 0);
        assert(mask_has(b[i].1, g[i]));
    } else {
        assert forall|j: int| 0 <= j < 81 implies b[j].0 > 0 by {
            if b[j].0 == 0 {
                assert(!branchable(b, j));
                lemma_count_zero(b[j].1);
                assert(is_digit(g[j]));
                assert(mask_has(b[j].1, g[j]));
            }
        }
        assert(g =~= values_of(b));
    }
    lemma_mask_digits(b[i].1);
    assert(branch_digits(b).contains(g[i]));
    let k = choose|k: int| 0 <= k < branch_digits(b).len() && branch_digits(b)[k] == g[i];
    assert(branch_digits(b)[k] == g[i]);
    assert forall|k: int|
        0 <= k < branch_digits(b).len() && #[trigger] branch_digits(b)[k] == g[i] implies admits(
        with_value(b, i, branch_digits(b)[k]),
        g,
    ) by {
        lemma_admits_with_value(b, g, i, branch_digits(b)[k]);
    }
}

} // verus!
