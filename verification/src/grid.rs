//! Grids of digits: what makes one a solution, and how one is written as
//! a string.
//!
//! A grid is a sequence of 81 values, row by row; 0 stands for an unset
//! cell.

use vstd::prelude::*;
use vstd::set_lib::{set_int_range, lemma_int_range, lemma_subset_equality};
use crate::cell::{is_digit, value_char};
use crate::units::{block_cell, unit_cell};

verus! {

/// 81 values from 0 to 9.
pub open spec fn is_grid(g: Seq<u8>) -> bool {
    g.len() == 81 && forall|i: int| 0 <= i < 81 ==> #[trigger] g[i] <= 9
}

/// 81 digits from 1 to 9.
pub open spec fn is_complete(g: Seq<u8>) -> bool {
    g.len() == 81 && forall|i: int| 0 <= i < 81 ==> is_digit(#[trigger] g[i])
}

/// No two set cells of unit `u` hold the same digit.
pub open spec fn unit_compatible(g: Seq<u8>, u: int) -> bool {
    forall|j: int, k: int|
        0 <= j < k < 9 && g[#[trigger] unit_cell(u, j)] != 0 ==> g[unit_cell(u, j)]
            != g[#[trigger] unit_cell(u, k)]
}

/// A grid in which no unit holds a digit twice.
pub open spec fn is_valid_grid(g: Seq<u8>) -> bool {
    is_grid(g) && forall|u: int| 0 <= u < 27 ==> #[trigger] unit_compatible(g, u)
}

/// A complete grid in which no unit holds a digit twice.
pub open spec fn is_solution(g: Seq<u8>) -> bool {
    is_complete(g) && forall|u: int| 0 <= u < 27 ==> #[trigger] unit_compatible(g, u)
}

/// Grid `g` agrees with every set cell of the partial grid `clues`.
pub open spec fn extends_clues(g: Seq<u8>, clues: Seq<u8>) -> bool {
    g.len() == clues.len() && forall|i: int|
        0 <= i < clues.len() && #[trigger] clues[i] != 0 ==> g[i] == clues[i]
}

/// Which cells of `g` are set.
pub open spec fn set_cells(g: Seq<u8>) -> Seq<bool> {
    Seq::new(g.len(), |i: int| g[i] != 0)
}

/// How many of the first `n` entries of `s` are true.
pub open spec fn count_true(s: Seq<bool>, n: int) -> nat
    decreases n,
{
    if n <= 0 {
        0
    } else {
        count_true(s, n - 1) + if s[n - 1] {
            1nat
        } else {
            0nat
        }
    }
}

/// How many cells of `g` are set.
pub open spec fn clue_count(g: Seq<u8>) -> nat {
    count_true(set_cells(g), g.len() as int)
}

/// No more entries are true than there are.
pub proof fn lemma_count_true_bound(s: Seq<bool>, n: int)
    requires
        0 <= n,
    ensures
        count_true(s, n) <= n,
    decreases n,
{
    if n > 0 {
        lemma_count_true_bound(s, n - 1);
    }
}

/// Where every entry is true, all are counted.
proof fn lemma_count_true_full(s: Seq<bool>, n: int)
    requires
        0 <= n <= s.len(),
        forall|i: int| 0 <= i < n ==> s[i],
    ensures
        count_true(s, n) == n,
    decreases n,
{
    if n > 0 {
        lemma_count_true_full(s, n - 1);
    }
}

/// Where no entry is true, none is counted; and where none is counted, no
/// entry is true.
pub proof fn lemma_count_true_none(s: Seq<bool>, n: int)
    requires
        0 <= n <= s.len(),
    ensures
        count_true(s, n) == 0 <==> (forall|i: int| 0 <= i < n ==> !s[i]),
    decreases n,
{
    if n > 0 {
        lemma_count_true_none(s, n - 1);
        if count_true(s, n) == 0 {
            assert forall|i: int| 0 <= i < n implies !s[i] by {
                if i < n - 1 {
                    assert(!s[i]);
                }
            }
        }
    }
}

/// Setting a false entry to true raises the count by one.
pub proof fn lemma_count_true_set(s: Seq<bool>, i: int, n: int)
    requires
        0 <= i < s.len(),
        0 <= n <= s.len(),
        !s[i],
    ensures
        count_true(s.update(i, true), n) == count_true(s, n) + (if i < n {
            1nat
        } else {
            0nat
        }),
    decreases n,
{
    if n > 0 {
        lemma_count_true_set(s, i, n - 1);
    }
}

/// Setting a true entry to false lowers the count by one.
pub proof fn lemma_count_true_clear(s: Seq<bool>, i: int, n: int)
    requires
        0 <= i < s.len(),
        0 <= n <= s.len(),
        s[i],
    ensures
        count_true(s.update(i, false), n) + (if i < n {
            1nat
        } else {
            0nat
        }) == count_true(s, n),
    decreases n,
{
    if n > 0 {
        lemma_count_true_clear(s, i, n - 1);
    }
}

/// A complete grid has 81 clues, and a grid has at most as many clues as
/// cells.
pub proof fn lemma_clue_count_bounds(g: Seq<u8>)
    ensures
        clue_count(g) <= g.len(),
        is_complete(g) ==> clue_count(g) == 81,
{
    lemma_count_true_bound(set_cells(g), g.len() as int);
    if is_complete(g) {
        assert forall|i: int| 0 <= i < 81 implies set_cells(g)[i] by {
            assert(is_digit(g[i]));
        }
        lemma_count_true_full(set_cells(g), 81);
    }
}

/// Unsetting a clue leaves one clue less.
pub proof fn lemma_clue_count_unset(g: Seq<u8>, i: int)
    requires
        0 <= i < g.len(),
        g[i] != 0,
    ensures
        clue_count(g.update(i, 0u8)) + 1 == clue_count(g),
{
    assert(set_cells(g.update(i, 0u8)) =~= set_cells(g).update(i, false));
    lemma_count_true_clear(set_cells(g), i, g.len() as int);
}

/// Changing a clue to another digit keeps the number of clues.
pub proof fn lemma_clue_count_change(g: Seq<u8>, i: int, v: u8)
    requires
        0 <= i < g.len(),
        g[i] != 0,
        v != 0,
    ensures
        clue_count(g.update(i, v)) == clue_count(g),
{
    assert(set_cells(g.update(i, v)) =~= set_cells(g));
}

/// The value that a character of a grid string stands for: the digits 1 to
/// 9 for themselves, every other character for an unset cell.
pub open spec fn char_value(c: char) -> u8 {
    if c == '1' {
        1
    } else if c == '2' {
        2
    } else if c == '3' {
        3
    } else if c == '4' {
        4
    } else if c == '5' {
        5
    } else if c == '6' {
        6
    } else if c == '7' {
        7
    } else if c == '8' {
        8
    } else if c == '9' {
        9
    } else {
        0
    }
}

/// The grid that a string stands for.
pub open spec fn parse_grid(text: Seq<char>) -> Seq<u8> {
    Seq::new(text.len(), |i: int| char_value(text[i]))
}

/// The character that stands for a value in a string of digits.
pub open spec fn digit_char(v: u8) -> char {
    if v == 0 {
        '0'
    } else {
        value_char(v)
    }
}

/// The string of digits that stands for a grid, `0` for an unset cell.
pub open spec fn render_digits(g: Seq<u8>) -> Seq<char> {
    Seq::new(g.len(), |i: int| digit_char(g[i]))
}

/// The string that stands for a grid, `.` for an unset cell.
pub open spec fn render_grid(g: Seq<u8>) -> Seq<char> {
    Seq::new(g.len(), |i: int| value_char(g[i]))
}

/// A string of digits 1 to 9 and `.`.
pub open spec fn is_grid_text(text: Seq<char>) -> bool {
    forall|i: int| 0 <= i < text.len() ==> value_char(char_value(#[trigger] text[i])) == text[i]
}

/// The digits that the first `n` cells of unit `u` hold in `g`.
pub open spec fn unit_digits(g: Seq<u8>, u: int, n: int) -> Set<int>
    decreases n,
{
    if n <= 0 {
        Set::empty()
    } else {
        unit_digits(g, u, n - 1).insert(g[unit_cell(u, n - 1)] as int)
    }
}

/// The first `n` cells of a unit of a solution hold `n` different digits.
proof fn lemma_unit_digits(g: Seq<u8>, u: int, n: int)
    requires
        is_solution(g),
        0 <= u < 27,
        0 <= n <= 9,
    ensures
        unit_digits(g, u, n).finite(),
        unit_digits(g, u, n).len() == n,
        unit_digits(g, u, n).subset_of(set_int_range(1, 10)),
        forall|v: int|
            unit_digits(g, u, n).contains(v) <==> exists|k: int|
                0 <= k < n && g[#[trigger] unit_cell(u, k)] == v,
    decreases n,
{
    if n > 0 {
        lemma_unit_digits(g, u, n - 1);
        let prev = unit_digits(g, u, n - 1);
        let last = g[unit_cell(u, n - 1)] as int;
        assert(unit_compatible(g, u));
        assert(0 <= unit_cell(u, n - 1) < 81);
        assert(is_digit(g[unit_cell(u, n - 1)]));
        if prev.contains(last) {
            let k = choose|k: int| 0 <= k < n - 1 && g[#[trigger] unit_cell(u, k)] == last;
            assert(0 <= unit_cell(u, k) < 81);
            assert(is_digit(g[unit_cell(u, k)]));
            assert(false);
        }
        assert forall|v: int| unit_digits(g, u, n).contains(v) implies exists|k: int|
            0 <= k < n && g[#[trigger] unit_cell(u, k)] == v by {
            if v == last {
                assert(g[unit_cell(u, n - 1)] == v);
            } else {
                assert(prev.contains(v));
            }
        }
    }
}

/// In a solution every unit holds every digit.
pub proof fn lemma_solution_unit_has_digit(g: Seq<u8>, u: int, d: u8)
    requires
        is_solution(g),
        0 <= u < 27,
        is_digit(d),
    ensures
        exists|k: int| 0 <= k < 9 && g[#[trigger] unit_cell(u, k)] == d,
{
    lemma_unit_digits(g, u, 9);
    lemma_int_range(1, 10);
    lemma_subset_equality(unit_digits(g, u, 9), set_int_range(1, 10));
    assert(set_int_range(1, 10).contains(d as int));
    assert(unit_digits(g, u, 9).contains(d as int));
}

/// The grid whose first row counts from 1 to 9 and whose other rows are
/// the first one, shifted by three from row to row and by one more from
/// band to band.
pub open spec fn shifted_rows_grid() -> Seq<u8> {
    Seq::new(81, |i: int| ((row_shift(i) + i % 9) % 9 + 1) as u8)
}

/// By how much the row of cell `i` is shifted.
pub open spec fn row_shift(i: int) -> int {
    3 * ((i / 9) % 3) + (i / 9) / 3
}

/// Two numbers less than nine apart leave different remainders.
proof fn lemma_differ_mod_nine(x: int, y: int)
    requires
        0 <= x,
        0 <= y,
        0 < x - y < 9 || 0 < y - x < 9,
    ensures
        x % 9 != y % 9,
{
}

/// A row of the grid of shifted rows holds no digit twice.
proof fn lemma_shifted_rows_row(r: int, j: int, k: int)
    requires
        0 <= r < 9,
        0 <= j < k < 9,
    ensures
        (row_shift(9 * r + j) + (9 * r + j) % 9) % 9 != (row_shift(9 * r + k) + (9 * r + k) % 9)
            % 9,
{
    let a = 9 * r + j;
    let b = 9 * r + k;
    assert(a / 9 == r && b / 9 == r);
    assert(a % 9 == j && b % 9 == k);
    lemma_differ_mod_nine(row_shift(a) + j, row_shift(b) + k);
}

/// A column of the grid of shifted rows holds no digit twice.
proof fn lemma_shifted_rows_col(c: int, j: int, k: int)
    requires
        0 <= c < 9,
        0 <= j < k < 9,
    ensures
        (row_shift(9 * j + c) + (9 * j + c) % 9) % 9 != (row_shift(9 * k + c) + (9 * k + c) % 9)
            % 9,
{
    let a = 9 * j + c;
    let b = 9 * k + c;
    assert(a / 9 == j && b / 9 == k);
    assert(a % 9 == c && b % 9 == c);
    assert(row_shift(a) == 3 * (j % 3) + j / 3);
    assert(row_shift(b) == 3 * (k % 3) + k / 3);
    assert(row_shift(a) != row_shift(b));
    assert(0 <= row_shift(a) < 9 && 0 <= row_shift(b) < 9);
    lemma_differ_mod_nine(row_shift(a) + c, row_shift(b) + c);
}

/// A block of the grid of shifted rows holds no digit twice.
proof fn lemma_shifted_rows_block(c: int, j: int, k: int)
    requires
        0 <= c < 9,
        0 <= j < k < 9,
    ensures
        (row_shift(block_cell(c, j)) + block_cell(c, j) % 9) % 9 != (
        row_shift(block_cell(c, k)) + block_cell(c, k) % 9) % 9,
{
    let a = block_cell(c, j);
    let b = block_cell(c, k);
    assert(a == 9 * (3 * (c / 3) + j / 3) + (3 * (c % 3) + j % 3));
    assert(b == 9 * (3 * (c / 3) + k / 3) + (3 * (c % 3) + k % 3));
    assert(a / 9 == 3 * (c / 3) + j / 3 && a % 9 == 3 * (c % 3) + j % 3);
    assert(b / 9 == 3 * (c / 3) + k / 3 && b % 9 == 3 * (c % 3) + k % 3);
    assert((a / 9) % 3 == j / 3 && (a / 9) / 3 == c / 3);
    assert((b / 9) % 3 == k / 3 && (b / 9) / 3 == c / 3);
    let fa = row_shift(a) + a % 9;
    let fb = row_shift(b) + b % 9;
    assert(fa == 3 * (j / 3) + c / 3 + 3 * (c % 3) + j % 3);
    assert(fb == 3 * (k / 3) + c / 3 + 3 * (c % 3) + k % 3);
    assert(fb - fa == k - j);
    lemma_differ_mod_nine(fa, fb);
}

/// A unit of the grid of shifted rows holds no digit twice.
proof fn lemma_shifted_rows_unit(u: int, j: int, k: int)
    requires
        0 <= u < 27,
        0 <= j < k < 9,
    ensures
        shifted_rows_grid()[unit_cell(u, j)] != shifted_rows_grid()[unit_cell(u, k)],
{
    let a = unit_cell(u, j);
    let b = unit_cell(u, k);
    assert(0 <= a < 81 && 0 <= b < 81);
    assert(shifted_rows_grid()[a] == ((row_shift(a) + a % 9) % 9 + 1) as u8);
    assert(shifted_rows_grid()[b] == ((row_shift(b) + b % 9) % 9 + 1) as u8);
    if u < 9 {
        lemma_shifted_rows_row(u, j, k);
    } else if u < 18 {
        lemma_shifted_rows_col(u - 9, j, k);
    } else {
        lemma_shifted_rows_block(u - 18, j, k);
    }
}

/// There is a solution: the grid of shifted rows is one.
pub proof fn lemma_shifted_rows_is_solution()
    ensures
        is_solution(shifted_rows_grid()),
{
    let g = shifted_rows_grid();
    assert forall|u: int| 0 <= u < 27 implies #[trigger] unit_compatible(g, u) by {
        assert forall|j: int, k: int|
            0 <= j < k < 9 && g[#[trigger] unit_cell(u, j)] != 0 implies g[unit_cell(u, j)]
            != g[#[trigger] unit_cell(u, k)] by {
            lemma_shifted_rows_unit(u, j, k);
        }
    }
}

/// Reading a string of digits gives back the grid that was written.
pub proof fn lemma_parse_render_digits(g: Seq<u8>)
    requires
        forall|i: int| 0 <= i < g.len() ==> #[trigger] g[i] <= 9,
    ensures
        parse_grid(render_digits(g)) == g,
{
    assert(parse_grid(render_digits(g)) =~= g);
}

/// Writing a grid and reading the string again gives the grid back.
pub proof fn lemma_parse_render(g: Seq<u8>)
    requires
        forall|i: int| 0 <= i < g.len() ==> #[trigger] g[i] <= 9,
    ensures
        parse_grid(render_grid(g)) == g,
        is_grid_text(render_grid(g)),
{
    assert(parse_grid(render_grid(g)) =~= g);
}

/// The value that a character of a grid string stands for.
pub fn value_of_char(c: char) -> (v: u8)
    ensures
        v == char_value(c),
        v <= 9,
{
    match c {
        '1' => 1,
        '2' => 2,
        '3' => 3,
        '4' => 4,
        '5' => 5,
        '6' => 6,
        '7' => 7,
        '8' => 8,
        '9' => 9,
        _ => 0,
    }
}

/// The one-character string of a value from 0 to 9.
pub fn digit_text(v: u8) -> (text: &'static str)
    requires
        v <= 9,
    ensures
        text@ == seq![digit_char(v)],
{
    proof {
        reveal_strlit("0");
        reveal_strlit("1");
        reveal_strlit("2");
        reveal_strlit("3");
        reveal_strlit("4");
        reveal_strlit("5");
        reveal_strlit("6");
        reveal_strlit("7");
        reveal_strlit("8");
        reveal_strlit("9");
    }
    let text = match v {
        0 => "0",
        1 => "1",
        2 => "2",
        3 => "3",
        4 => "4",
        5 => "5",
        6 => "6",
        7 => "7",
        8 => "8",
        _ => "9",
    };
    assert(text@ =~= seq![digit_char(v)]);
    text
}

/// Writes a grid as a string of 81 digits, `0` for an unset cell.
pub fn grid_to_digits(g: &Vec<u8>) -> (text: String)
    requires
        is_grid(g@),
    ensures
        text@ == render_digits(g@),
{
    let mut result = String::new();
    let mut i: usize = 0;
    while i < 81
        invariant
            0 <= i <= 81,
            is_grid(g@),
            result@.len() == i,
            forall|k: int| 0 <= k < i ==> #[trigger] result@[k] == digit_char(g@[k]),
        decreases 81 - i,
    {
        result.append(digit_text(g[i]));
        i += 1;
    }
    assert(result@ =~= render_digits(g@));
    result
}

/// Reads a grid string of 81 characters: a digit from 1 to 9 is a set cell,
/// any other character an unset one. A string of another length is no grid.
pub fn game_str_to_vec(game: &str) -> (r: Option<Vec<u8>>)
    ensures
        game@.len() == 81 ==> r.is_some() && r.unwrap()@ == parse_grid(game@),
        game@.len() != 81 ==> r.is_none(),
        r.is_some() ==> is_grid(r.unwrap()@),
{
    if game.unicode_len() != 81 {
        return None;
    }
    let mut values: Vec<u8> = Vec::new();
    let mut i: usize = 0;
    while i < 81
        invariant
            0 <= i <= 81,
            game@.len() == 81,
            values@.len() == i,
            forall|k: int| 0 <= k < i ==> #[trigger] values@[k] == char_value(game@[k]),
        decreases 81 - i,
    {
        values.push(value_of_char(game.get_char(i)));
        i += 1;
    }
    assert(values@ =~= parse_grid(game@));
    Some(values)
}

} // verus!
