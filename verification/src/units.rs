//! The 27 units of the grid: nine rows, nine columns and nine blocks.
//!
//! Cells are numbered row by row: cell `9 * row + col`. Units are numbered
//! 0 to 8 for the rows, 9 to 17 for the columns and 18 to 26 for the blocks.

use vstd::prelude::*;

verus! {

/// The nine cell positions of a unit.
pub type Unit = [u8; 9];

/// The rows, from top to bottom.
pub const ROWS: [Unit; 9] = [
    [0, 1, 2, 3, 4, 5, 6, 7, 8],
    [9, 10, 11, 12, 13, 14, 15, 16, 17],
    [18, 19, 20, 21, 22, 23, 24, 25, 26],
    [27, 28, 29, 30, 31, 32, 33, 34, 35],
    [36, 37, 38, 39, 40, 41, 42, 43, 44],
    [45, 46, 47, 48, 49, 50, 51, 52, 53],
    [54, 55, 56, 57, 58, 59, 60, 61, 62],
    [63, 64, 65, 66, 67, 68, 69, 70, 71],
    [72, 73, 74, 75, 76, 77, 78, 79, 80],
];

/// The columns, from left to right.
pub const COLS: [Unit; 9] = [
    [0, 9, 18, 27, 36, 45, 54, 63, 72],
    [1, 10, 19, 28, 37, 46, 55, 64, 73],
    [2, 11, 20, 29, 38, 47, 56, 65, 74],
    [3, 12, 21, 30, 39, 48, 57, 66, 75],
    [4, 13, 22, 31, 40, 49, 58, 67, 76],
    [5, 14, 23, 32, 41, 50, 59, 68, 77],
    [6, 15, 24, 33, 42, 51, 60, 69, 78],
    [7, 16, 25, 34, 43, 52, 61, 70, 79],
    [8, 17, 26, 35, 44, 53, 62, 71, 80],
];

/// The blocks of three by three cells, row by row.
pub const BLOCKS: [Unit; 9] = [
    [0, 1, 2, 9, 10, 11, 18, 19, 20],
    [3, 4, 5, 12, 13, 14, 21, 22, 23],
    [6, 7, 8, 15, 16, 17, 24, 25, 26],
    [27, 28, 29, 36, 37, 38, 45, 46, 47],
    [30, 31, 32, 39, 40, 41, 48, 49, 50],
    [33, 34, 35, 42, 43, 44, 51, 52, 53],
    [54, 55, 56, 63, 64, 65, 72, 73, 74],
    [57, 58, 59, 66, 67, 68, 75, 76, 77],
    [60, 61, 62, 69, 70, 71, 78, 79, 80],
];

/// Cell `k` of row `r`.
pub open spec fn row_cell(r: int, k: int) -> int {
    9 * r + k
}

/// Cell `k` of column `c`.
pub open spec fn col_cell(c: int, k: int) -> int {
    9 * k + c
}

/// Cell `k` of block `b`; the blocks are numbered row by row.
pub open spec fn block_cell(b: int, k: int) -> int {
    27 * (b / 3) + 3 * (b % 3) + 9 * (k / 3) + k % 3
}

/// Cell `k` of unit `u`.
pub open spec fn unit_cell(u: int, k: int) -> int {
    if u < 9 {
        row_cell(u, k)
    } else if u < 18 {
        col_cell(u - 9, k)
    } else {
        block_cell(u - 18, k)
    }
}

/// The cells of unit `u`, in order.
pub open spec fn unit_seq(u: int) -> Seq<u8> {
    Seq::new(9, |k: int| unit_cell(u, k) as u8)
}

/// The cells of one of the 27 units, in order.
pub open spec fn is_unit(cells: Seq<u8>) -> bool {
    exists|u: int| 0 <= u < 27 && cells == #[trigger] unit_seq(u)
}

/// The number of the unit that `cells` is.
pub open spec fn unit_id(cells: Seq<u8>) -> int {
    choose|u: int| 0 <= u < 27 && cells == #[trigger] unit_seq(u)
}

/// The block that cell `i` lies in.
pub open spec fn block_of(i: int) -> int {
    3 * (i / 27) + (i % 9) / 3
}

/// Unit `u` is the row, the column or the block of cell `i`.
pub open spec fn is_unit_of(u: int, i: int) -> bool {
    u == i / 9 || u == 9 + i % 9 || u == 18 + block_of(i)
}

/// Two different cells that share a row, a column or a block.
pub open spec fn are_peers(i: int, j: int) -> bool {
    i != j && (i / 9 == j / 9 || i % 9 == j % 9 || block_of(i) == block_of(j))
}

/// Every cell lies in one row, one column and one block, and in no other
/// unit.
pub proof fn lemma_cell_in_three_units(i: int)
    requires
        0 <= i < 81,
    ensures
        unit_cell(i / 9, i % 9) == i,
        unit_cell(9 + i % 9, i / 9) == i,
        unit_cell(18 + block_of(i), 3 * ((i / 9) % 3) + i % 3) == i,
        0 <= block_of(i) < 9,
        forall|u: int, k: int|
            0 <= u < 27 && 0 <= k < 9 && #[trigger] unit_cell(u, k) == i ==> u == i / 9 || u == 9
                + i % 9 || u == 18 + block_of(i),
{
}

/// No two units have the same cells: the cells of unit `u` are those of
/// no other unit.
pub proof fn lemma_unit_id(u: int)
    requires
        0 <= u < 27,
    ensures
        is_unit(unit_seq(u)),
        unit_id(unit_seq(u)) == u,
{
    let v = unit_id(unit_seq(u));
    assert(unit_seq(u)[0] == unit_seq(v)[0]);
    assert(unit_seq(u)[1] == unit_seq(v)[1]);
    assert(unit_seq(u)[3] == unit_seq(v)[3]);
}

/// A peer of cell `i` lies in the row, the column or the block of `i`.
pub proof fn lemma_peer_in_unit(i: int, j: int)
    requires
        0 <= i < 81,
        0 <= j < 81,
        are_peers(i, j),
    ensures
        exists|u: int, k: int|
            (u == i / 9 || u == 9 + i % 9 || u == 18 + block_of(i)) && 0 <= k < 9
                && #[trigger] unit_cell(u, k) == j,
{
    lemma_cell_in_three_units(j);
    if i / 9 == j / 9 {
        assert(unit_cell(i / 9, j % 9) == j);
    } else if i % 9 == j % 9 {
        assert(unit_cell(9 + i % 9, j / 9) == j);
    } else {
        assert(unit_cell(18 + block_of(i), 3 * ((j / 9) % 3) + j % 3) == j);
    }
}

/// The cells of row `row`.
pub fn get_row_unit(row: u8) -> (unit: &'static Unit)
    requires
        row < 9,
    ensures
        unit@ == unit_seq(row as int),
        is_unit(unit@),
{
    let unit = &ROWS[row as usize];
    assert(unit@ =~= unit_seq(row as int));
    unit
}

/// The cells of column `col`.
pub fn get_col_unit(col: u8) -> (unit: &'static Unit)
    requires
        col < 9,
    ensures
        unit@ == unit_seq(9 + col as int),
        is_unit(unit@),
{
    let unit = &COLS[col as usize];
    assert(unit@ =~= unit_seq(9 + col as int));
    unit
}

/// The cells of block `index`; the blocks are numbered row by row.
pub fn get_block_unit_by_index(index: u8) -> (unit: &'static Unit)
    requires
        index < 9,
    ensures
        unit@ == unit_seq(18 + index as int),
        is_unit(unit@),
{
    let unit = &BLOCKS[index as usize];
    assert(unit@ =~= unit_seq(18 + index as int));
    unit
}

/// The cells of the block that holds the cell at `row` and `col`.
pub fn get_block_unit_by_pos(row: u8, col: u8) -> (unit: &'static Unit)
    requires
        row < 9,
        col < 9,
    ensures
        unit@ == unit_seq(18 + block_of(9 * row + col)),
        is_unit(unit@),
{
    let block_row = row / 3;
    let block_col = col / 3;
    let block_id = block_row * 3 + block_col;

    get_block_unit_by_index(block_id)
}

} // verus!
