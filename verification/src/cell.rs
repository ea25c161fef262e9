//! A single grid position: a fixed digit, or a set of digits still possible.
//!
//! The candidate set is a nine-bit mask: bit `d - 1` stands for digit `d`.
//! A cell is viewed as the pair `(value, mask)`; `value == 0` means unset.

use vstd::prelude::*;

verus! {

/// The candidate mask that holds every digit from 1 to 9.
pub const SOLVED_VALUE: u16 = 511;

/// The plain state of a cell: its value and its candidate mask.
pub type CellState = (u8, u16);

/// A digit of the game.
pub open spec fn is_digit(d: u8) -> bool {
    1 <= d <= 9
}

/// The mask with only the bit of digit `d` set.
pub open spec fn one_hot_spec(d: u8) -> u16 {
    1u16 << ((d - 1) as u16)
}

/// Whether digit `d` is in the candidate mask `mask`.
pub open spec fn mask_has(mask: u16, d: u8) -> bool {
    mask & one_hot_spec(d) != 0
}

/// The digits of `mask` that are at most `n`, in ascending order.
pub open spec fn digits_upto(mask: u16, n: u8) -> Seq<u8>
    decreases n,
{
    if n == 0 {
        Seq::empty()
    } else if mask_has(mask, n) {
        digits_upto(mask, (n - 1) as u8).push(n)
    } else {
        digits_upto(mask, (n - 1) as u8)
    }
}

/// The digits of `mask`, in ascending order.
pub open spec fn mask_digits(mask: u16) -> Seq<u8> {
    digits_upto(mask, 9)
}

/// How many digits `mask` holds.
pub open spec fn mask_count(mask: u16) -> nat {
    mask_digits(mask).len()
}

/// The smallest digit of `mask`, or 0 where it holds none.
pub open spec fn mask_lowest(mask: u16) -> u8 {
    if mask_count(mask) == 0 {
        0
    } else {
        mask_digits(mask)[0]
    }
}

/// `mask` without digit `d`.
pub open spec fn mask_without(mask: u16, d: u8) -> u16 {
    if mask_has(mask, d) {
        (mask - one_hot_spec(d)) as u16
    } else {
        mask
    }
}

/// `mask` with digit `d`.
pub open spec fn mask_with(mask: u16, d: u8) -> u16 {
    if mask_has(mask, d) {
        mask
    } else {
        (mask + one_hot_spec(d)) as u16
    }
}

/// A value from 0 to 9 and a mask of nine bits.
pub open spec fn state_wf(s: CellState) -> bool {
    s.0 <= 9 && s.1 < 512
}

/// The character that stands for a cell value in a grid string.
pub open spec fn value_char(v: u8) -> char {
    if v == 1 {
        '1'
    } else if v == 2 {
        '2'
    } else if v == 3 {
        '3'
    } else if v == 4 {
        '4'
    } else if v == 5 {
        '5'
    } else if v == 6 {
        '6'
    } else if v == 7 {
        '7'
    } else if v == 8 {
        '8'
    } else if v == 9 {
        '9'
    } else {
        '.'
    }
}

/// What `eliminate_candidate` answers and leaves behind.
///
/// A digit that is not a candidate changes nothing. The last candidate is
/// never taken: the answer is `Err` and the state stays. Taking one of two
/// candidates fixes the cell to the other one, and a fixed cell has no
/// candidates.
pub open spec fn eliminate_spec(s: CellState, c: u8) -> (Result<u8, u8>, CellState) {
    if !mask_has(s.1, c) {
        (Ok(0u8), s)
    } else if mask_count(s.1) == 1 {
        (Err(c), s)
    } else if mask_count(s.1) == 2 {
        (Ok(c), (mask_lowest(mask_without(s.1, c)), 0u16))
    } else {
        (Ok(0u8), (s.0, mask_without(s.1, c)))
    }
}

/// The character of a binary digit.
pub open spec fn bit_char(d: u8) -> char {
    if d == 0 {
        '0'
    } else {
        '1'
    }
}

/// The binary numeral of `n`, without leading zeros.
pub open spec fn binary_digits(n: u16) -> Seq<char>
    decreases n,
{
    if n < 2 {
        seq![bit_char(n as u8)]
    } else {
        binary_digits(n / 2).push(bit_char((n % 2) as u8))
    }
}

/// The numeral whose binary digits are `low`, lowest digit first.
pub open spec fn numeral_of(low: Seq<u8>) -> Seq<char> {
    Seq::new(low.len(), |i: int| bit_char(low[low.len() - 1 - i]))
}

/// The masks of the nine digits.
proof fn lemma_one_hot_values(d: u8)
    by (bit_vector)
    requires
        1 <= d <= 9,
    ensures
        d == 1 ==> one_hot_spec(d) == 1,
        d == 2 ==> one_hot_spec(d) == 2,
        d == 3 ==> one_hot_spec(d) == 4,
        d == 4 ==> one_hot_spec(d) == 8,
        d == 5 ==> one_hot_spec(d) == 16,
        d == 6 ==> one_hot_spec(d) == 32,
        d == 7 ==> one_hot_spec(d) == 64,
        d == 8 ==> one_hot_spec(d) == 128,
        d == 9 ==> one_hot_spec(d) == 256,
{
}

/// Adding the bit of a digit that is not in the mask.
proof fn lemma_set_bit(mask: u16, d: u8, e: u8)
    by (bit_vector)
    requires
        mask < 512,
        1 <= d <= 9,
        1 <= e <= 9,
        !mask_has(mask, d),
    ensures
        mask + one_hot_spec(d) < 512,
        mask_has((mask + one_hot_spec(d)) as u16, e) == (e == d || mask_has(mask, e)),
{
}

/// Subtracting the bit of a digit that is in the mask.
proof fn lemma_clear_bit(mask: u16, d: u8, e: u8)
    by (bit_vector)
    requires
        mask < 512,
        1 <= d <= 9,
        1 <= e <= 9,
        mask_has(mask, d),
    ensures
        mask >= one_hot_spec(d),
        mask - one_hot_spec(d) < 512,
        mask_has((mask - one_hot_spec(d)) as u16, e) == (e != d && mask_has(mask, e)),
{
}

/// The digits of the masks 0 and 511.
proof fn lemma_constant_masks(e: u8)
    by (bit_vector)
    requires
        1 <= e <= 9,
    ensures
        !mask_has(0, e),
        mask_has(511, e),
{
}

/// The empty mask holds no digit and the full mask holds every digit.
pub proof fn lemma_empty_and_full_mask()
    ensures
        forall|e: u8| is_digit(e) ==> !#[trigger] mask_has(0, e),
        forall|e: u8| is_digit(e) ==> #[trigger] mask_has(SOLVED_VALUE, e),
        mask_count(0) == 0,
        mask_count(SOLVED_VALUE) == 9,
{
    assert forall|e: u8| is_digit(e) implies !#[trigger] mask_has(0, e) by {
        lemma_constant_masks(e);
    }
    assert forall|e: u8| is_digit(e) implies #[trigger] mask_has(SOLVED_VALUE, e) by {
        lemma_constant_masks(e);
    }
    reveal_with_fuel(digits_upto, 10);
}

/// What `mask_with` holds: the digits of `mask`, and `d`.
pub proof fn lemma_mask_with(mask: u16, d: u8)
    requires
        mask < 512,
        is_digit(d),
    ensures
        mask_with(mask, d) < 512,
        !mask_has(mask, d) ==> mask + one_hot_spec(d) < 512,
        forall|e: u8|
            is_digit(e) ==> (#[trigger] mask_has(mask_with(mask, d), e) <==> e == d || mask_has(
                mask,
                e,
            )),
{
    if !mask_has(mask, d) {
        lemma_set_bit(mask, d, d);
        assert forall|e: u8| is_digit(e) implies (#[trigger] mask_has(mask_with(mask, d), e) <==> e
            == d || mask_has(mask, e)) by {
            lemma_set_bit(mask, d, e);
        }
    }
}

/// What `mask_without` holds: the digits of `mask` but `d`.
pub proof fn lemma_mask_without(mask: u16, d: u8)
    requires
        mask < 512,
        is_digit(d),
    ensures
        mask_without(mask, d) < 512,
        mask_without(mask, d) <= mask,
        mask_has(mask, d) ==> mask >= one_hot_spec(d),
        forall|e: u8|
            is_digit(e) ==> (#[trigger] mask_has(mask_without(mask, d), e) <==> e != d && mask_has(
                mask,
                e,
            )),
{
    if mask_has(mask, d) {
        lemma_clear_bit(mask, d, d);
        assert forall|e: u8| is_digit(e) implies (#[trigger] mask_has(mask_without(mask, d), e) <==>
            e != d && mask_has(mask, e)) by {
            lemma_clear_bit(mask, d, e);
        }
    }
}

/// `digits_upto` lists, in ascending order, exactly the digits of the mask
/// up to `n`.
pub proof fn lemma_digits_upto(mask: u16, n: u8)
    requires
        n <= 9,
    ensures
        digits_upto(mask, n).len() <= n,
        forall|k: int|
            0 <= k < digits_upto(mask, n).len() ==> 1 <= #[trigger] digits_upto(mask, n)[k] <= n
                && mask_has(mask, digits_upto(mask, n)[k]),
        forall|j: int, k: int|
            0 <= j < k < digits_upto(mask, n).len() ==> digits_upto(mask, n)[j] < digits_upto(
                mask,
                n,
            )[k],
        forall|d: u8|
            1 <= d <= n && mask_has(mask, d) ==> #[trigger] digits_upto(mask, n).contains(d),
    decreases n,
{
    if n > 0 {
        let prev = digits_upto(mask, (n - 1) as u8);
        lemma_digits_upto(mask, (n - 1) as u8);
        let cur = digits_upto(mask, n);
        assert forall|d: u8| 1 <= d <= n && mask_has(mask, d) implies #[trigger] cur.contains(
            d,
        ) by {
            if d == n {
                assert(cur[cur.len() - 1] == n);
            } else {
                assert(prev.contains(d));
                let k = choose|k: int| 0 <= k < prev.len() && prev[k] == d;
                assert(cur[k] == d);
            }
        }
    }
}

/// The digits of a mask: each is a candidate, they ascend, and none is
/// missing.
pub proof fn lemma_mask_digits(mask: u16)
    ensures
        mask_count(mask) <= 9,
        forall|k: int|
            0 <= k < mask_digits(mask).len() ==> is_digit(#[trigger] mask_digits(mask)[k])
                && mask_has(mask, mask_digits(mask)[k]),
        forall|j: int, k: int|
            0 <= j < k < mask_digits(mask).len() ==> mask_digits(mask)[j] < mask_digits(mask)[k],
        forall|d: u8| is_digit(d) && mask_has(mask, d) ==> #[trigger] mask_digits(mask).contains(d),
{
    lemma_digits_upto(mask, 9);
}

/// A mask holds no digit exactly when its count is zero.
pub proof fn lemma_count_zero(mask: u16)
    ensures
        mask_count(mask) == 0 <==> (forall|d: u8| is_digit(d) ==> !#[trigger] mask_has(mask, d)),
{
    lemma_mask_digits(mask);
    if mask_count(mask) > 0 {
        assert(mask_has(mask, mask_digits(mask)[0]));
    } else {
        assert forall|d: u8| is_digit(d) implies !#[trigger] mask_has(mask, d) by {
            if mask_has(mask, d) {
                assert(mask_digits(mask).contains(d));
            }
        }
    }
}

/// Two masks that differ in digit `d` alone differ by one in their count
/// of digits up to `n`, if `d` is among these.
proof fn lemma_count_differs(a: u16, b: u16, d: u8, n: u8)
    requires
        n <= 9,
        is_digit(d),
        mask_has(a, d),
        !mask_has(b, d),
        forall|e: u8| is_digit(e) && e != d ==> (#[trigger] mask_has(b, e) <==> mask_has(a, e)),
    ensures
        digits_upto(a, n).len() == digits_upto(b, n).len() + (if d <= n {
            1nat
        } else {
            0nat
        }),
    decreases n,
{
    if n > 0 {
        lemma_count_differs(a, b, d, (n - 1) as u8);
        if n != d {
            assert(mask_has(b, n) <==> mask_has(a, n));
        }
    }
}

/// Taking a candidate away lowers the count by one.
pub proof fn lemma_count_without(mask: u16, d: u8)
    requires
        mask < 512,
        is_digit(d),
        mask_has(mask, d),
    ensures
        mask_count(mask_without(mask, d)) + 1 == mask_count(mask),
{
    lemma_mask_without(mask, d);
    lemma_count_differs(mask, mask_without(mask, d), d, 9);
}

/// In a mask of one digit, that digit is the lowest and the only one.
pub proof fn lemma_single(mask: u16)
    requires
        mask_count(mask) == 1,
    ensures
        is_digit(mask_lowest(mask)),
        forall|d: u8| is_digit(d) ==> (#[trigger] mask_has(mask, d) <==> d == mask_lowest(mask)),
{
    lemma_mask_digits(mask);
    let low = mask_digits(mask)[0];
    assert forall|d: u8| is_digit(d) implies (#[trigger] mask_has(mask, d) <==> d == low) by {
        if mask_has(mask, d) {
            assert(mask_digits(mask).contains(d));
        }
    }
}

/// The mask of a digit.
pub fn one_hot(value: u8) -> (mask: u16)
    requires
        is_digit(value),
    ensures
        mask == one_hot_spec(value),
        0 < mask <= 256,
{
    proof {
        lemma_one_hot_values(value);
    }
    1u16 << ((value - 1) as u16)
}

/// The character that stands for a cell value in a grid string: the digit
/// of a value from 1 to 9, `.` for any other.
pub fn char_of_value(v: u8) -> (c: char)
    ensures
        c == value_char(v),
{
    match v {
        1 => '1',
        2 => '2',
        3 => '3',
        4 => '4',
        5 => '5',
        6 => '6',
        7 => '7',
        8 => '8',
        9 => '9',
        _ => '.',
    }
}

/// One position of the grid.
#[derive(Debug, Copy, Clone)]
pub struct Cell {
    index: u8,
    value: u8,
    candidates: u16,
}

impl View for Cell {
    type V = CellState;

    closed spec fn view(&self) -> CellState {
        (self.value, self.candidates)
    }
}

impl Cell {
    /// The position that was last given to `set_index`.
    pub closed spec fn spec_index(&self) -> u8 {
        self.index
    }

    /// The value is at most 9 and the mask has nine bits.
    pub open spec fn wf(&self) -> bool {
        state_wf(self@)
    }

    /// An unset cell without candidates.
    pub fn new() -> (cell: Self)
        ensures
            cell@ == (0u8, 0u16),
            cell.spec_index() == 0,
            cell.wf(),
    {
        Cell { index: 0, value: 0, candidates: 0 }
    }

    /// Notes the position of the cell on its board.
    pub fn set_index(&mut self, idx: u8)
        ensures
            final(self).spec_index() == idx,
            final(self)@ == old(self)@,
    {
        self.index = idx;
    }

    /// The position that was last given to `set_index`, 0 if none was.
    pub fn get_index(&self) -> (idx: u8)
        ensures
            idx == self.spec_index(),
    {
        self.index
    }

    /// Whether the cell holds a digit.
    pub fn is_fixed(&self) -> (fixed: bool)
        ensures
            fixed == (self@.0 > 0),
    {
        self.value > 0
    }

    /// Puts `c` among the candidates. Nothing changes if it is there already.
    pub fn add_candidate(&mut self, c: u8)
        requires
            old(self).wf(),
            is_digit(c),
        ensures
            final(self)@ == (old(self)@.0, mask_with(old(self)@.1, c)),
            final(self).spec_index() == old(self).spec_index(),
            final(self).wf(),
            forall|e: u8|
                is_digit(e) ==> (#[trigger] mask_has(final(self)@.1, e) <==> e == c || mask_has(
                    old(self)@.1,
                    e,
                )),
    {
        let (present, candidate) = self.has_candidate(c);
        proof {
            lemma_mask_with(self.candidates, c);
        }
        if !present {
            self.candidates += candidate;
        }
    }

    /// Takes `c` from the candidates. Nothing changes if it is not there.
    pub fn remove_candidate(&mut self, c: u8)
        requires
            old(self).wf(),
            is_digit(c),
        ensures
            final(self)@ == (old(self)@.0, mask_without(old(self)@.1, c)),
            final(self).spec_index() == old(self).spec_index(),
            final(self).wf(),
            forall|e: u8|
                is_digit(e) ==> (#[trigger] mask_has(final(self)@.1, e) <==> e != c && mask_has(
                    old(self)@.1,
                    e,
                )),
    {
        let (present, candidate) = self.has_candidate(c);
        proof {
            lemma_mask_without(self.candidates, c);
        }
        if present {
            self.candidates -= candidate;
        }
    }

    /// Takes `c` from the candidates, unless it is the last one.
    ///
    /// `Err(c)` says that `c` was the only candidate left: the cell is
    /// unchanged. `Ok(c)` says that one candidate was left after the removal:
    /// the cell is now fixed to it and has no candidates. `Ok(0)` says that
    /// nothing more happened than the removal, if there was one.
    pub fn eliminate_candidate(&mut self, c: u8) -> (r: Result<u8, u8>)
        requires
            old(self).wf(),
            is_digit(c),
        ensures
            (r, final(self)@) == eliminate_spec(old(self)@, c),
            final(self).spec_index() == old(self).spec_index(),
            final(self).wf(),
            mask_has(old(self)@.1, c) && mask_count(old(self)@.1) == 1 ==> r == Err::<u8, u8>(c)
                && final(self)@ == old(self)@,
            mask_has(old(self)@.1, c) && mask_count(old(self)@.1) == 2 ==> r == Ok::<u8, u8>(c)
                && is_digit(final(self)@.0) && final(self)@.0 != c && mask_has(
                old(self)@.1,
                final(self)@.0,
            ) && final(self)@.1 == 0,
            mask_has(old(self)@.1, c) && mask_count(old(self)@.1) == 2 ==> forall|e: u8|
                is_digit(e) && mask_has(old(self)@.1, e) ==> e == c || e == final(self)@.0,
            r is Ok ==> r == Ok::<u8, u8>(0) || r == Ok::<u8, u8>(c),
            r == Ok::<u8, u8>(c) ==> mask_has(old(self)@.1, c) && mask_count(old(self)@.1) == 2,
            r == Ok::<u8, u8>(0) ==> final(self)@ == (
                old(self)@.0,
                mask_without(old(self)@.1, c),
            ),
            r is Ok ==> !mask_has(final(self)@.1, c),
            r == Ok::<u8, u8>(0) ==> forall|e: u8|
                is_digit(e) && e != c && mask_has(old(self)@.1, e) ==> #[trigger] mask_has(
                    final(self)@.1,
                    e,
                ),
            final(self)@.0 != old(self)@.0 ==> r == Ok::<u8, u8>(c) && mask_count(old(self)@.1)
                == 2,
            (old(self)@.0 > 0 ==> old(self)@.1 == 0) ==> (final(self)@.0 > 0 ==> final(self)@.1
                == 0),
            forall|e: u8|
                is_digit(e) && #[trigger] mask_has(final(self)@.1, e) ==> mask_has(
                    old(self)@.1,
                    e,
                ),
    {
        let (present, _) = self.has_candidate(c);
        proof {
            lemma_mask_without(self.candidates, c);
            lemma_empty_and_full_mask();
        }
        if present {
            let count = self.num_candidates();
            if count == 1 {
                return Err(c);
            }
            proof {
                lemma_count_zero(self.candidates);
                lemma_count_without(self.candidates, c);
            }
            if count > 1 {
                self.remove_candidate(c);
                if count == 2 {
                    proof {
                        lemma_single(self.candidates);
                        assert(mask_has(self.candidates, mask_lowest(self.candidates)));
                        assert forall|e: u8|
                            is_digit(e) && mask_has(old(self)@.1, e) implies e == c || e
                            == mask_lowest(self.candidates) by {
                            if e != c {
                                assert(mask_has(self.candidates, e));
                            }
                        }
                    }
                    self.apply_candidate();
                    self.clear_candidates();
                    return Ok(c);
                }
            }
        }
        Ok(0)
    }

    /// Makes every digit a candidate, unless the cell is fixed.
    pub fn fill_candidates(&mut self)
        ensures
            final(self)@ == (
                old(self)@.0,
                if old(self)@.0 > 0 {
                    old(self)@.1
                } else {
                    SOLVED_VALUE
                },
            ),
            final(self).spec_index() == old(self).spec_index(),
            old(self).wf() ==> final(self).wf(),
    {
        if !self.is_fixed() {
            self.candidates = SOLVED_VALUE;
        }
    }

    /// Takes every candidate away and keeps the value.
    pub fn clear_candidates(&mut self)
        ensures
            final(self)@ == (old(self)@.0, 0u16),
            final(self).spec_index() == old(self).spec_index(),
            old(self).wf() ==> final(self).wf(),
    {
        self.candidates = 0;
    }

    /// Fixes the cell to its candidate if it has exactly one, and keeps the
    /// candidate mask.
    pub fn apply_candidate(&mut self) -> (r: Option<u8>)
        requires
            old(self).wf(),
        ensures
            final(self).spec_index() == old(self).spec_index(),
            final(self).wf(),
            mask_count(old(self)@.1) == 1 ==> r == Some(mask_lowest(old(self)@.1)) && final(self)@
                == (mask_lowest(old(self)@.1), old(self)@.1),
            mask_count(old(self)@.1) != 1 ==> r.is_none() && final(self)@ == old(self)@,
    {
        if self.num_candidates() == 1 {
            let digits = self.collect_candidates();
            proof {
                lemma_single(self.candidates);
            }
            self.value = digits[0];
            Some(self.value)
        } else {
            None
        }
    }

    /// Whether `c` is a candidate, and the mask of `c`.
    pub fn has_candidate(&self, c: u8) -> (r: (bool, u16))
        requires
            is_digit(c),
        ensures
            r.0 == mask_has(self@.1, c),
            r.1 == one_hot_spec(c),
    {
        let candidate = one_hot(c);
        ((self.candidates & candidate) != 0, candidate)
    }

    /// How many candidates the cell has.
    pub fn num_candidates(&self) -> (n: u8)
        ensures
            n == mask_count(self@.1),
            n <= 9,
    {
        let digits = self.collect_candidates();
        proof {
            lemma_mask_digits(self.candidates);
        }
        digits.len() as u8
    }

    /// The candidates, in ascending order.
    pub fn collect_candidates(&self) -> (digits: Vec<u8>)
        ensures
            digits@ == mask_digits(self@.1),
    {
        let mut result: Vec<u8> = Vec::new();
        let mut i: u8 = 1;
        while i < 10
            invariant
                1 <= i <= 10,
                result@ == digits_upto(self.candidates, (i - 1) as u8),
            decreases 10 - i,
        {
            if self.has_candidate(i).0 {
                result.push(i);
            }
            i += 1;
        }
        result
    }

    /// The candidate mask as a binary numeral.
    pub fn candidates_str(&self) -> (text: String)
        ensures
            text@ == binary_digits(self@.1),
    {
        let mut low: Vec<u8> = Vec::new();
        let mut rest = self.candidates;
        while rest >= 2
            invariant
                binary_digits(self.candidates) == binary_digits(rest) + numeral_of(low@),
            decreases rest,
        {
            let ghost before = low@;
            low.push((rest % 2) as u8);
            assert(binary_digits(rest) + numeral_of(before) =~= binary_digits((rest / 2) as u16)
                + numeral_of(low@));
            rest = rest / 2;
        }
        let ghost before = low@;
        low.push(rest as u8);
        assert(binary_digits(rest) + numeral_of(before) =~= numeral_of(low@));

        let mut text = String::new();
        let mut k: usize = low.len();
        proof {
            reveal_strlit("0");
            reveal_strlit("1");
        }
        while k > 0
            invariant
                0 <= k <= low@.len(),
                "0"@ == seq!['0'],
                "1"@ == seq!['1'],
                text@ == numeral_of(low@).subrange(0, low@.len() - k),
            decreases k,
        {
            k -= 1;
            if low[k] == 0 {
                text.append("0");
            } else {
                text.append("1");
            }
            assert(text@ =~= numeral_of(low@).subrange(0, low@.len() - k));
        }
        assert(text@ =~= numeral_of(low@));
        text
    }

    /// The digit of a fixed cell, 0 for an unset one.
    pub fn get_value(&self) -> (value: u8)
        ensures
            value == self@.0,
    {
        self.value
    }

    /// Fixes the cell to `value` and clears its candidates; 0 unsets it.
    pub fn set_value(&mut self, value: u8)
        requires
            value <= 9,
        ensures
            final(self)@ == (value, 0u16),
            final(self).spec_index() == old(self).spec_index(),
            final(self).wf(),
    {
        self.value = value;
        self.candidates = 0;
    }

    /// Unsets the cell and keeps its candidates.
    pub fn clear_value(&mut self)
        ensures
            final(self)@ == (0u8, old(self)@.1),
            final(self).spec_index() == old(self).spec_index(),
            old(self).wf() ==> final(self).wf(),
    {
        self.value = 0;
    }

    /// The value and the candidate mask.
    pub fn backup(&self) -> (bak: (u8, u16))
        ensures
            bak == self@,
    {
        (self.value, self.candidates)
    }

    /// Takes over a value and a candidate mask as they are.
    pub fn restore(&mut self, bak: (u8, u16))
        requires
            state_wf(bak),
        ensures
            final(self)@ == bak,
            final(self).spec_index() == old(self).spec_index(),
            final(self).wf(),
    {
        self.value = bak.0;
        self.candidates = bak.1;
    }

    /// Unsets the cell and clears its candidates.
    pub fn reset(&mut self)
        ensures
            final(self)@ == (0u8, 0u16),
            final(self).spec_index() == old(self).spec_index(),
            final(self).wf(),
    {
        self.value = 0;
        self.candidates = 0;
    }

    /// The digit of a fixed cell, `.` for an unset one.
    pub fn serialize(&self) -> (c: char)
        ensures
            c == value_char(self@.0),
    {
        char_of_value(self.value)
    }
}

} // verus!
