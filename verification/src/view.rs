//! What the screen shows of a game: the cells that the player works on,
//! which of them are clues, where the focus is, which cells are
//! highlighted, and in which mode each cell takes digits.
//!
//! Drawing and reading keys are left to the program; what a key does is
//! decided here.

use vstd::prelude::*;
use crate::board::Board;
use crate::cell::{
    Cell, CellState, SOLVED_VALUE, char_of_value, is_digit, mask_count, mask_has, mask_with,
    mask_without, state_wf, value_char,
};
use crate::grid::{char_value, is_grid, value_of_char};
use crate::state::{clue_state, is_solved_state, state_of};

verus! {

/// How a cell takes a digit: as a candidate, or as its value.
#[derive(Debug, Copy, Clone)]
pub enum CellMode {
    Draft,
    Edit,
}

/// What the view of a cell shows besides the cell: its mode, whether the
/// focus is on it, and whether it is highlighted.
pub type Look = (CellMode, bool, bool);

/// How a cell is set off on screen: a clue or a cell of the player, each
/// in focus, highlighted, or plain.
#[derive(Debug, Copy, Clone)]
pub enum Tone {
    ClueFocus,
    ClueHighlight,
    Clue,
    Focus,
    Highlight,
    Plain,
}

/// How a cell with look `look` is set off, as a clue or not: the focus
/// goes before the highlight.
pub open spec fn tone_of(look: Look, readonly: bool) -> Tone {
    if readonly {
        if look.1 {
            Tone::ClueFocus
        } else if look.2 {
            Tone::ClueHighlight
        } else {
            Tone::Clue
        }
    } else {
        if look.1 {
            Tone::Focus
        } else if look.2 {
            Tone::Highlight
        } else {
            Tone::Plain
        }
    }
}

/// What an open cell shows in place `v` of its nine places: the digit
/// `v + 1` if the cell is in draft mode and has it as a candidate, else a
/// dot.
pub open spec fn place_char(look: Look, cell: CellState, v: u8) -> char {
    if mask_has(cell.1, (v + 1) as u8) && look.0 is Draft {
        value_char((v + 1) as u8)
    } else {
        '.'
    }
}

/// A key, as far as the game tells keys apart.
#[derive(Debug, Copy, Clone)]
pub enum Input {
    Up,
    Down,
    Left,
    Right,
    Char(char),
    Other,
}

/// The state of the view of one cell.
#[derive(Debug, Copy, Clone)]
pub struct CellView {
    mode: CellMode,
    active: bool,
    highlight: bool,
}

impl View for CellView {
    type V = Look;

    closed spec fn view(&self) -> Look {
        (self.mode, self.active, self.highlight)
    }
}

impl CellView {
    /// The view of a cell that takes values, without focus or highlight.
    pub fn new() -> (view: Self)
        ensures
            view@ == (CellMode::Edit, false, false),
    {
        CellView { mode: CellMode::Edit, active: false, highlight: false }
    }

    /// Says whether the focus is on the cell.
    pub fn set_active(&mut self, active: bool)
        ensures
            final(self)@ == (old(self)@.0, active, old(self)@.2),
    {
        self.active = active;
    }

    /// Says whether the cell is highlighted.
    pub fn set_highlight(&mut self, highlight: bool)
        ensures
            final(self)@ == (old(self)@.0, old(self)@.1, highlight),
    {
        self.highlight = highlight;
    }

    /// Says how the cell takes digits.
    pub fn set_mode(&mut self, mode: CellMode)
        ensures
            final(self)@ == (mode, old(self)@.1, old(self)@.2),
    {
        self.mode = mode;
    }

    /// How the cell takes digits.
    pub fn get_mode(&self) -> (mode: CellMode)
        ensures
            mode == self@.0,
    {
        self.mode
    }

    /// Whether the focus is on the cell.
    pub fn is_active(&self) -> (active: bool)
        ensures
            active == self@.1,
    {
        self.active
    }

    /// Whether the cell is highlighted.
    pub fn is_highlighted(&self) -> (highlight: bool)
        ensures
            highlight == self@.2,
    {
        self.highlight
    }

    /// How the cell is set off on screen, as a clue or not.
    pub fn tone(&self, readonly: bool) -> (tone: Tone)
        ensures
            tone == tone_of(self@, readonly),
    {
        if readonly {
            if self.active {
                Tone::ClueFocus
            } else if self.highlight {
                Tone::ClueHighlight
            } else {
                Tone::Clue
            }
        } else {
            if self.active {
                Tone::Focus
            } else if self.highlight {
                Tone::Highlight
            } else {
                Tone::Plain
            }
        }
    }

    /// What the open cell `cell` shows in place `v` of its nine places.
    pub fn place(&self, cell: &Cell, v: u8) -> (c: char)
        requires
            v < 9,
        ensures
            c == place_char(self@, cell@, v),
    {
        let drafted = match self.mode {
            CellMode::Draft => true,
            CellMode::Edit => false,
        };
        if cell.has_candidate(v + 1).0 && drafted {
            char_of_value(v + 1)
        } else {
            '.'
        }
    }
}

/// The screen as plain values: the state of every cell, whether it is a
/// clue, the cell in focus, and the look of every cell.
pub struct Screen {
    pub cells: Seq<CellState>,
    pub readonly: Seq<bool>,
    pub focused: Option<usize>,
    pub looks: Seq<Look>,
}

/// 81 well-formed cells, and the focus on the one cell that is active.
pub open spec fn screen_wf(s: Screen) -> bool {
    &&& s.cells.len() == 81
    &&& s.readonly.len() == 81
    &&& s.looks.len() == 81
    &&& forall|i: int| 0 <= i < 81 ==> state_wf(#[trigger] s.cells[i])
    &&& match s.focused {
        Some(f) => f < 81,
        None => true,
    }
    &&& forall|i: int|
        0 <= i < 81 ==> ((#[trigger] s.looks[i]).1 <==> s.focused == Some(i as usize))
}

/// The screen with the focus on cell `index`: that cell alone is active,
/// and if it is fixed, the cells with its value are highlighted, and no
/// others.
pub open spec fn focus_on(s: Screen, index: int) -> Screen {
    Screen {
        focused: Some(index as usize),
        looks: Seq::new(
            81,
            |i: int|
                (
                    s.looks[i].0,
                    i == index,
                    s.cells[index].0 > 0 && s.cells[i].0 == s.cells[index].0,
                ),
        ),
        ..s
    }
}

/// Where an arrow key moves the focus: one cell in its direction, if there
/// is one; to cell 0 if there was no focus; nowhere else.
pub open spec fn arrow_target(focused: Option<usize>, key: Input) -> Option<int> {
    match focused {
        None => match key {
            Input::Up | Input::Down | Input::Left | Input::Right => Some(0int),
            _ => None,
        },
        Some(f) => match key {
            Input::Up => if f >= 9 {
                Some(f - 9)
            } else {
                None
            },
            Input::Down => if f < 72 {
                Some(f + 9)
            } else {
                None
            },
            Input::Left => if f > 0 {
                Some(f - 1)
            } else {
                None
            },
            Input::Right => if f < 80 {
                Some(f + 1)
            } else {
                None
            },
            _ => None,
        },
    }
}

/// The digit from 1 to 9 that a character is, or 0.
pub open spec fn typed_digit(c: char) -> u8 {
    char_value(c)
}

/// The screen after digit `d` was typed with the focus on cell `f`. A
/// cell in edit mode takes the digit as its value, unless it is fixed, and
/// the other cells with that value are highlighted as well. A cell in
/// draft mode gains the digit as a candidate, or loses it if it has it.
pub open spec fn digit_typed(s: Screen, f: int, d: u8) -> Screen {
    match s.looks[f].0 {
        CellMode::Edit => if s.cells[f].0 > 0 {
            s
        } else {
            Screen {
                cells: s.cells.update(f, (d, 0u16)),
                looks: Seq::new(
                    81,
                    |i: int|
                        (s.looks[i].0, s.looks[i].1, s.looks[i].2 || (i != f && s.cells[i].0 == d)),
                ),
                ..s
            }
        },
        CellMode::Draft => Screen {
            cells: s.cells.update(
                f,
                (
                    s.cells[f].0,
                    if mask_has(s.cells[f].1, d) {
                        mask_without(s.cells[f].1, d)
                    } else {
                        mask_with(s.cells[f].1, d)
                    },
                ),
            ),
            ..s
        },
    }
}

/// The screen after a character that is no digit was typed with the focus
/// on cell `f`: `d` puts the cell into draft mode, and gives it every
/// candidate if it is open and has none; `e` puts it into edit mode; `c`
/// empties it unless it is a clue. Other characters do nothing.
pub open spec fn letter_typed(s: Screen, f: int, c: char) -> Screen {
    if c == 'd' {
        Screen {
            looks: s.looks.update(f, (CellMode::Draft, s.looks[f].1, s.looks[f].2)),
            cells: if mask_count(s.cells[f].1) == 0 && s.cells[f].0 == 0 {
                s.cells.update(f, (0u8, SOLVED_VALUE))
            } else {
                s.cells
            },
            ..s
        }
    } else if c == 'e' {
        Screen { looks: s.looks.update(f, (CellMode::Edit, s.looks[f].1, s.looks[f].2)), ..s }
    } else if c == 'c' {
        if s.readonly[f] {
            s
        } else {
            Screen { cells: s.cells.update(f, (0u8, 0u16)), ..s }
        }
    } else {
        s
    }
}

/// The screen after a key.
pub open spec fn after_input(s: Screen, key: Input) -> Screen {
    match key {
        Input::Char(c) => match s.focused {
            Some(f) => if typed_digit(c) > 0 {
                digit_typed(s, f as int, typed_digit(c))
            } else {
                letter_typed(s, f as int, c)
            },
            None => s,
        },
        _ => match arrow_target(s.focused, key) {
            Some(t) => focus_on(s, t),
            None => s,
        },
    }
}

/// The screen with a new puzzle: its clues fixed and marked, every other
/// cell open with every candidate. Focus and looks stay.
pub open spec fn with_puzzle(s: Screen, puzzle: Seq<u8>) -> Screen {
    Screen {
        cells: clue_state(puzzle),
        readonly: Seq::new(81, |i: int| puzzle[i] > 0),
        ..s
    }
}

/// The screen with the player's work undone: every cell that is no clue
/// is open with every candidate.
pub open spec fn without_entries(s: Screen) -> Screen {
    Screen {
        cells: Seq::new(
            81,
            |i: int|
                if s.readonly[i] {
                    s.cells[i]
                } else {
                    (0u8, SOLVED_VALUE)
                },
        ),
        ..s
    }
}

/// The grid that the screen shows: the values of the cells.
pub open spec fn shown_grid(s: Screen) -> Seq<u8> {
    Seq::new(81, |i: int| s.cells[i].0)
}

/// The cells of a game on screen, with what the views of the cells show.
pub struct BoardView {
    cells: [Cell; 81],
    readonly: [bool; 81],
    focused: Option<usize>,
    cellviews: [CellView; 81],
}

impl View for BoardView {
    type V = Screen;

    closed spec fn view(&self) -> Screen {
        Screen {
            cells: Seq::new(81, |i: int| self.cells[i]@),
            readonly: self.readonly@,
            focused: self.focused,
            looks: Seq::new(81, |i: int| self.cellviews[i]@),
        }
    }
}

impl BoardView {
    /// 81 well-formed cells, and the focus on the one cell that is active.
    pub open spec fn wf(&self) -> bool {
        screen_wf(self@)
    }

    /// The screen of 81 empty cells, none of them a clue, without focus.
    pub fn new() -> (view: Self)
        ensures
            view.wf(),
            view@.focused.is_none(),
            forall|i: int|
                0 <= i < 81 ==> #[trigger] view@.cells[i] == (0u8, 0u16) && !view@.readonly[i]
                    && view@.looks[i] == (CellMode::Edit, false, false),
    {
        BoardView {
            cells: [Cell::new();81],
            readonly: [false;81],
            focused: None,
            cellviews: [CellView::new();81],
        }
    }

    /// The cell at `index`.
    pub fn cell(&self, index: usize) -> (cell: &Cell)
        requires
            index < 81,
        ensures
            cell@ == self@.cells[index as int],
    {
        &self.cells[index]
    }

    /// Whether the cell at `index` is a clue.
    pub fn is_readonly(&self, index: usize) -> (readonly: bool)
        requires
            index < 81,
        ensures
            readonly == self@.readonly[index as int],
    {
        self.readonly[index]
    }

    /// The view of the cell at `index`.
    pub fn cell_view(&self, index: usize) -> (view: &CellView)
        requires
            index < 81,
        ensures
            view@ == self@.looks[index as int],
    {
        &self.cellviews[index]
    }

    /// The cell in focus.
    pub fn focused(&self) -> (focused: Option<usize>)
        ensures
            focused == self@.focused,
    {
        self.focused
    }

    /// Puts the focus on cell `index` and highlights the cells that hold
    /// the value of that cell, if it is fixed.
    pub fn set_folus_cell(&mut self, index: usize)
        requires
            old(self).wf(),
            index < 81,
        ensures
            final(self)@ == focus_on(old(self)@, index as int),
            final(self).wf(),
    {
        match self.focused {
            Some(i) => {
                self.cellviews[i].set_active(false);
                self.cellviews[index].set_active(true);
            },
            _ => {
                self.cellviews[index].set_active(true);
            },
        }
        self.focused = Some(index);
        assert forall|k: int| 0 <= k < 81 implies (#[trigger] self.cellviews[k])@ == (
            old(self).cellviews[k]@.0,
            k == index,
            old(self).cellviews[k]@.2,
        ) by {
            assert(old(self)@.looks[k].1 <==> old(self)@.focused == Some(k as usize));
        }

        // no cell stays highlighted
        let mut k: usize = 0;
        while k < 81
            invariant
                0 <= k <= 81,
                index < 81,
                self.cells == old(self).cells,
                self.readonly == old(self).readonly,
                self.focused == Some(index),
                forall|j: int|
                    0 <= j < 81 ==> (#[trigger] self.cellviews[j])@ == (
                        old(self).cellviews[j]@.0,
                        j == index,
                        if j < k {
                            false
                        } else {
                            old(self).cellviews[j]@.2
                        },
                    ),
            decreases 81 - k,
        {
            self.cellviews[k].set_highlight(false);
            k += 1;
        }

        // the cells with the value of the cell in focus are highlighted
        let is_fixed = self.cells[index].is_fixed();
        let v = self.cells[index].get_value();
        if is_fixed {
            let mut i: usize = 0;
            while i < 81
                invariant
                    0 <= i <= 81,
                    index < 81,
                    self.cells == old(self).cells,
                    self.readonly == old(self).readonly,
                    self.focused == Some(index),
                    v == self.cells[index as int]@.0,
                    forall|j: int|
                        0 <= j < 81 ==> (#[trigger] self.cellviews[j])@ == (
                            old(self).cellviews[j]@.0,
                            j == index,
                            j < i && self.cells[j]@.0 == v,
                        ),
                decreases 81 - i,
            {
                if self.cells[i].get_value() == v {
                    self.cellviews[i].set_highlight(true);
                }
                i += 1;
            }
        }
        assert(self@.looks =~= focus_on(old(self)@, index as int).looks);
        assert(self@.cells =~= old(self)@.cells);
    }

    /// Does what a key asks for: an arrow moves the focus, a digit goes
    /// into the cell in focus, `d` and `e` change its mode, `c` empties it.
    pub fn on_input(&mut self, key: Input)
        requires
            old(self).wf(),
        ensures
            final(self)@ == after_input(old(self)@, key),
            final(self).wf(),
    {
        match key {
            Input::Up => match self.focused {
                Some(f) => {
                    if f >= 9 {
                        self.set_folus_cell(f - 9);
                    }
                },
                _ => {
                    self.set_folus_cell(0);
                },
            },
            Input::Down => match self.focused {
                Some(f) => {
                    if f < 72 {
                        self.set_folus_cell(f + 9);
                    }
                },
                _ => {
                    self.set_folus_cell(0);
                },
            },
            Input::Left => match self.focused {
                Some(f) => {
                    if f > 0 {
                        self.set_folus_cell(f - 1);
                    }
                },
                _ => {
                    self.set_folus_cell(0);
                },
            },
            Input::Right => match self.focused {
                Some(f) => {
                    if f < 80 {
                        self.set_folus_cell(f + 1);
                    }
                },
                _ => {
                    self.set_folus_cell(0);
                },
            },
            Input::Char(c) => {
                let d = value_of_char(c);
                if d > 0 {
                    if let Some(index) = self.focused {
                        self.type_digit(index, d);
                    }
                } else if let Some(index) = self.focused {
                    self.type_letter(index, c);
                }
            },
            _ => (),
        }
    }

    /// Takes a digit for the cell at `index`, as `digit_typed` says.
    fn type_digit(&mut self, index: usize, d: u8)
        requires
            old(self).wf(),
            index < 81,
            is_digit(d),
        ensures
            final(self)@ == digit_typed(old(self)@, index as int, d),
            final(self).wf(),
    {
        assert(state_wf(self@.cells[index as int]));
        match self.cellviews[index].get_mode() {
            CellMode::Edit => {
                if !self.cells[index].is_fixed() {
                    self.cells[index].set_value(d);
                    // the other cells with the new value are highlighted as well
                    let mut i: usize = 0;
                    while i < 81
                        invariant
                            0 <= i <= 81,
                            index < 81,
                            self.readonly == old(self).readonly,
                            self.focused == old(self).focused,
                            forall|j: int|
                                0 <= j < 81 ==> (#[trigger] self.cells[j])@ == (if j == index {
                                    (d, 0u16)
                                } else {
                                    old(self).cells[j]@
                                }),
                            forall|j: int|
                                0 <= j < 81 ==> (#[trigger] self.cellviews[j])@ == (
                                    old(self).cellviews[j]@.0,
                                    old(self).cellviews[j]@.1,
                                    old(self).cellviews[j]@.2 || (j < i && j != index && old(
                                        self,
                                    ).cells[j]@.0 == d),
                                ),
                        decreases 81 - i,
                    {
                        if i != index && self.cells[i].get_value() == d {
                            self.cellviews[i].set_highlight(true);
                        }
                        i += 1;
                    }
                    assert(self@.cells =~= digit_typed(old(self)@, index as int, d).cells);
                    assert(self@.looks =~= digit_typed(old(self)@, index as int, d).looks);
                    assert forall|j: int| 0 <= j < 81 implies state_wf(
                        #[trigger] self@.cells[j],
                    ) by {
                        assert(state_wf(old(self)@.cells[j]));
                    }
                }
            },
            CellMode::Draft => {
                if self.cells[index].has_candidate(d).0 {
                    self.cells[index].remove_candidate(d);
                } else {
                    self.cells[index].add_candidate(d);
                }
                assert(self@.cells =~= digit_typed(old(self)@, index as int, d).cells);
                assert(self@.looks =~= old(self)@.looks);
                assert forall|j: int| 0 <= j < 81 implies state_wf(#[trigger] self@.cells[j]) by {
                    assert(state_wf(old(self)@.cells[j]));
                }
            },
        }
    }

    /// Takes a character that is no digit for the cell at `index`, as
    /// `letter_typed` says.
    fn type_letter(&mut self, index: usize, c: char)
        requires
            old(self).wf(),
            index < 81,
        ensures
            final(self)@ == letter_typed(old(self)@, index as int, c),
            final(self).wf(),
    {
        assert(state_wf(self@.cells[index as int]));
        if c == 'd' {
            self.cellviews[index].set_mode(CellMode::Draft);
            if self.cells[index].num_candidates() == 0 {
                self.cells[index].fill_candidates();
            }
            assert(self@.cells =~= letter_typed(old(self)@, index as int, c).cells);
            assert(self@.looks =~= letter_typed(old(self)@, index as int, c).looks);
        } else if c == 'e' {
            self.cellviews[index].set_mode(CellMode::Edit);
            assert(self@.cells =~= old(self)@.cells);
            assert(self@.looks =~= letter_typed(old(self)@, index as int, c).looks);
        } else if c == 'c' {
            if !self.readonly[index] {
                self.cells[index].clear_value();
                self.cells[index].clear_candidates();
                assert(self@.cells =~= letter_typed(old(self)@, index as int, c).cells);
                assert(self@.looks =~= old(self)@.looks);
            }
        }
        assert forall|j: int| 0 <= j < 81 implies state_wf(#[trigger] self@.cells[j]) by {
            assert(state_wf(old(self)@.cells[j]));
        }
    }

    /// Shows a new puzzle: a grid of 81 values from 0 to 9, 0 for a cell
    /// that the player is to fill. Anything else is refused and changes
    /// nothing.
    pub fn new_game(&mut self, puzzle: &Vec<u8>) -> (shown: bool)
        requires
            old(self).wf(),
        ensures
            shown == is_grid(puzzle@),
            shown ==> final(self)@ == with_puzzle(old(self)@, puzzle@),
            !shown ==> final(self)@ == old(self)@,
            final(self).wf(),
    {
        if !Board::is_grid_values(puzzle) {
            return false;
        }
        let mut index: usize = 0;
        while index < 81
            invariant
                0 <= index <= 81,
                is_grid(puzzle@),
                self.focused == old(self).focused,
                self.cellviews == old(self).cellviews,
                forall|j: int|
                    0 <= j < index ==> (#[trigger] self.cells[j])@ == clue_state(
                        puzzle@,
                    )[j],
                forall|j: int| 0 <= j < index ==> #[trigger] self.readonly[j] == (puzzle@[j] > 0),
            decreases 81 - index,
        {
            self.cells[index].reset();
            if puzzle[index] > 0 {
                self.cells[index].set_value(puzzle[index]);
                self.readonly[index] = true;
            } else {
                self.cells[index].fill_candidates();
                self.readonly[index] = false;
            }
            index += 1;
        }
        assert(self@.cells =~= with_puzzle(old(self)@, puzzle@).cells);
        assert(self@.readonly =~= with_puzzle(old(self)@, puzzle@).readonly);
        assert(self@.looks =~= old(self)@.looks);
        true
    }

    /// Undoes the player's work: every cell that is no clue becomes open
    /// with every candidate.
    pub fn reset_game(&mut self)
        requires
            old(self).wf(),
        ensures
            final(self)@ == without_entries(old(self)@),
            final(self).wf(),
    {
        let mut index: usize = 0;
        while index < 81
            invariant
                0 <= index <= 81,
                old(self).wf(),
                self.readonly == old(self).readonly,
                self.focused == old(self).focused,
                self.cellviews == old(self).cellviews,
                forall|j: int|
                    0 <= j < 81 ==> (#[trigger] self.cells[j])@ == (if j < index
                        && !self.readonly[j] {
                        (0u8, SOLVED_VALUE)
                    } else {
                        old(self).cells[j]@
                    }),
            decreases 81 - index,
        {
            if !self.readonly[index] {
                self.cells[index].reset();
                self.cells[index].fill_candidates();
            }
            index += 1;
        }
        assert(self@.cells =~= without_entries(old(self)@).cells);
        assert(self@.looks =~= old(self)@.looks);
        assert forall|j: int| 0 <= j < 81 implies state_wf(#[trigger] self@.cells[j]) by {
            assert(state_wf(old(self)@.cells[j]));
        }
    }

    /// The grid on screen: the value of every cell, 0 for an open one.
    pub fn values(&self) -> (game: Vec<u8>)
        requires
            self.wf(),
        ensures
            game@ == shown_grid(self@),
            is_grid(game@),
    {
        let mut game: Vec<u8> = Vec::new();
        let mut index: usize = 0;
        while index < 81
            invariant
                0 <= index <= 81,
                self.wf(),
                game@.len() == index,
                forall|j: int| 0 <= j < index ==> #[trigger] game@[j] == self@.cells[j].0,
            decreases 81 - index,
        {
            if self.cells[index].is_fixed() {
                game.push(self.cells[index].get_value());
            } else {
                game.push(0);
            }
            index += 1;
        }
        assert(game@ =~= shown_grid(self@));
        assert forall|i: int| 0 <= i < 81 implies #[trigger] game@[i] <= 9 by {
            assert(state_wf(self@.cells[i]));
        }
        game
    }

    /// Whether the grid on screen is complete and holds no digit twice in
    /// a unit.
    pub fn check_game(&self) -> (solved: bool)
        requires
            self.wf(),
        ensures
            solved == is_solved_state(state_of(shown_grid(self@))),
    {
        let game = self.values();
        let mut board = Board::new();
        board.load_values(&game);
        board.is_solved()
    }
}

} // verus!
