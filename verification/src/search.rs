//! The search as a shared frontier of open branches, for a pool of workers.
//!
//! The search tree is that of `Board::solve`. A worker takes a task from the
//! frontier, explores it on a board of its own, and hands back what came
//! out; the frontier decides what becomes of it. Taking a task and handing
//! back a result are short steps, to be made one at a time; exploring is the
//! long one and needs nothing shared. `Board::solve_alone` is the search
//! with one worker; `Board::solve_in_turns` is the search with any number
//! of workers, in any order of their turns.

use vstd::prelude::*;
use crate::board::Board;
use crate::cell::{CellState, is_digit, lemma_mask_digits};
use crate::grid::is_solution;
use crate::model::assign_model;
use crate::outside::available_cpus;
use crate::state::{
    admits, board_wf, branch_cell, branch_digits, is_solved_state, open_count, propagated, refines,
    solvable, values_of, with_value, lemma_branch_refines, lemma_branches_cover,
    lemma_refines_admits, lemma_refines_open_count, lemma_refines_reflexive,
    lemma_refines_transitive, lemma_solved_admits_itself,
};

verus! {

/// A strategy as plain values: a board state, a cell and a digit.
pub struct StrategyView {
    pub state: Seq<CellState>,
    pub index: u8,
    pub value: u8,
}

/// A frontier as plain values: the state that the search started from, the
/// entries that wait, the flag that says that a solution was found, and the
/// number of branches that are out.
pub struct FrontierView {
    pub root: Seq<CellState>,
    pub waiting: Seq<StrategyView>,
    pub solved: bool,
    pub busy: usize,
}

/// The state in which a branch starts: its board state with its cell fixed
/// to its digit.
pub open spec fn branch_state(s: StrategyView) -> Seq<CellState> {
    with_value(s.state, s.index as int, s.value)
}

/// A branch to explore: a well-formed state, a cell of the board and a
/// digit.
pub open spec fn is_branch(s: StrategyView) -> bool {
    board_wf(s.state) && s.index < 81 && is_digit(s.value)
}

/// The entry that carries a solution: a solved state, and no assignment.
pub open spec fn is_result(s: StrategyView) -> bool {
    board_wf(s.state) && is_solved_state(s.state) && s.index == 0 && s.value == 0
}

/// The entry that carries the solved state `b`.
pub open spec fn result_of(b: Seq<CellState>) -> StrategyView {
    StrategyView { state: b, index: 0, value: 0 }
}

/// The branches of state `b`: one for each digit that the search tries at
/// the cell it branches on, in that order.
pub open spec fn branches_of(b: Seq<CellState>) -> Seq<StrategyView> {
    Seq::new(
        branch_digits(b).len(),
        |k: int| StrategyView { state: b, index: branch_cell(b) as u8, value: branch_digits(b)[k] },
    )
}

/// The views of a sequence of strategies.
pub open spec fn views(strategies: Seq<Strategy>) -> Seq<StrategyView> {
    Seq::new(strategies.len(), |k: int| strategies[k]@)
}

/// What exploring branch `s` gives, by the outcome of the assignment.
/// `Dead`: propagation met a contradiction, so no solution starts with this
/// branch. `Solved`: propagation ended in a solved state, which the entry
/// carries. `Open`: propagation ended in a state that is not solved, and
/// the search goes on with the branches of that state.
pub open spec fn explored(s: StrategyView, e: Expansion) -> bool {
    let after = assign_model(s.state, s.index as int, s.value);
    match e {
        Expansion::Dead => !after.0 && !solvable(branch_state(s)),
        Expansion::Solved(r) => after.0 && r@ == result_of(after.1) && is_result(r@)
            && propagated(branch_state(s), after.1, true),
        Expansion::Open(children) => after.0 && !is_solved_state(after.1) && views(children@)
            == branches_of(after.1) && propagated(branch_state(s), after.1, true),
    }
}

/// What the frontier accepts from a worker.
pub open spec fn is_expansion(e: Expansion) -> bool {
    match e {
        Expansion::Dead => true,
        Expansion::Solved(r) => is_result(r@),
        Expansion::Open(children) => forall|k: int|
            0 <= k < children@.len() ==> is_branch(#[trigger] children@[k]@),
    }
}

/// The entry lies below `root`: the state in which it starts, or the
/// solution that it carries, came out of `root`.
pub open spec fn entry_below(s: StrategyView, root: Seq<CellState>) -> bool {
    if is_result(s) {
        refines(s.state, root)
    } else {
        refines(branch_state(s), root)
    }
}

/// What came out of a branch lies below `root`.
pub open spec fn expansion_below(e: Expansion, root: Seq<CellState>) -> bool {
    match e {
        Expansion::Dead => true,
        Expansion::Solved(r) => entry_below(r@, root),
        Expansion::Open(children) => forall|k: int|
            0 <= k < children@.len() ==> entry_below(#[trigger] children@[k]@, root),
    }
}

/// One entry of the frontier: a board state with the cell and the digit to
/// try on it.
pub struct Strategy {
    state: Vec<(u8, u16)>,
    index: u8,
    value: u8,
}

impl View for Strategy {
    type V = StrategyView;

    closed spec fn view(&self) -> StrategyView {
        StrategyView { state: self.state@, index: self.index, value: self.value }
    }
}

/// What came out of a branch.
pub enum Expansion {
    /// A contradiction.
    Dead,
    /// A solution, in the entry that carries it.
    Solved(Strategy),
    /// The branches with which the search goes on.
    Open(Vec<Strategy>),
}

/// What a worker is to do next.
pub enum Task {
    /// The search is over: stop.
    Finished,
    /// Nothing is waiting: ask again.
    Idle,
    /// Explore this branch and hand back what comes out.
    Explore(Strategy),
}

/// The open branches, the flag that says that a solution was found, and
/// the number of branches that were handed out and have not come back.
pub struct Frontier {
    strategies: Vec<Strategy>,
    solved: bool,
    busy: usize,
    root: Ghost<Seq<CellState>>,
}

impl View for Frontier {
    type V = FrontierView;

    closed spec fn view(&self) -> FrontierView {
        FrontierView {
            root: self.root@,
            waiting: views(self.strategies@),
            solved: self.solved,
            busy: self.busy,
        }
    }
}

/// How many workers the pool has: one for each processor that the program
/// can use.
pub fn pool_size() -> (n: usize)
    ensures
        n >= 1,
{
    available_cpus()
}

impl Strategy {
    /// The cell to fix.
    pub fn index(&self) -> (index: u8)
        ensures
            index == self@.index,
    {
        self.index
    }

    /// The digit to fix it to.
    pub fn value(&self) -> (value: u8)
        ensures
            value == self@.value,
    {
        self.value
    }

    /// The board state from which the branch starts.
    pub fn state(&self) -> (state: &Vec<(u8, u16)>)
        ensures
            state@ == self@.state,
    {
        &self.state
    }

    /// Explores the branch on a board of its own: takes over the state,
    /// fixes the cell and propagates.
    pub fn explore(&self) -> (e: Expansion)
        requires
            is_branch(self@),
        ensures
            explored(self@, e),
            is_expansion(e),
            forall|root: Seq<CellState>|
                refines(branch_state(self@), root) ==> #[trigger] expansion_below(e, root),
    {
        let mut next_board = Board::new();
        next_board.restore(&self.state);
        let e = if next_board.assign_cell(self.index, self.value) {
            if next_board.is_solved() {
                Expansion::Solved(Strategy { index: 0, state: next_board.backup(), value: 0 })
            } else {
                let children = next_board.branches();
                assert(branches_of(next_board@) == views(children@));
                Expansion::Open(children)
            }
        } else {
            Expansion::Dead
        };
        proof {
            assert forall|root: Seq<CellState>|
                refines(branch_state(self@), root) implies #[trigger] expansion_below(e, root) by {
                lemma_explored_below(self@, e, root);
            }
        }
        e
    }
}

impl Board {
    /// The branches of the board: its state with the cell that
    /// `next_candidate_cell` names and each of the cell's candidates, in
    /// ascending order.
    pub fn branches(&self) -> (r: Vec<Strategy>)
        requires
            self.wf(),
        ensures
            views(r@) == branches_of(self@),
            forall|k: int| 0 <= k < r@.len() ==> is_branch(#[trigger] r@[k]@),
    {
        let (index, candidates) = self.next_candidate_cell();
        let mut result: Vec<Strategy> = Vec::new();
        let mut k: usize = 0;
        while k < candidates.len()
            invariant
                0 <= k <= candidates@.len(),
                self.wf(),
                index == branch_cell(self@),
                candidates@ == branch_digits(self@),
                result@.len() == k,
                forall|j: int|
                    0 <= j < k ==> (#[trigger] result@[j])@ == (StrategyView {
                        state: self@,
                        index,
                        value: candidates@[j],
                    })
                        && is_branch(result@[j]@),
            decreases candidates@.len() - k,
        {
            proof {
                lemma_branch_refines(self@, k as int);
            }
            result.push(Strategy { index, state: self.backup(), value: candidates[k] });
            k += 1;
        }
        assert(views(result@) =~= branches_of(self@));
        result
    }
}

impl Frontier {
    /// While no solution is found, every entry is a branch to explore. Once
    /// one is found, the entry that carries it is the only one. Every entry
    /// lies below the state that the search started from.
    pub open spec fn wf(&self) -> bool {
        &&& if self@.solved {
            self@.waiting.len() == 1 && is_result(self@.waiting[0])
        } else {
            forall|k: int| 0 <= k < self@.waiting.len() ==> is_branch(#[trigger] self@.waiting[k])
        }
        &&& forall|k: int|
            0 <= k < self@.waiting.len() ==> entry_below(#[trigger] self@.waiting[k], self@.root)
    }

    /// The frontier at the start of the search: the branches of the board,
    /// or its state as the solution if it is solved already. No branch is
    /// handed out yet.
    pub fn new(board: &Board) -> (frontier: Self)
        requires
            board.wf(),
        ensures
            frontier.wf(),
            frontier@.root == board@,
            frontier@.solved == is_solved_state(board@),
            frontier@.busy == 0,
            is_solved_state(board@) ==> frontier@.waiting == seq![result_of(board@)],
            !is_solved_state(board@) ==> frontier@.waiting == branches_of(board@),
    {
        if board.is_solved() {
            let mut strategies: Vec<Strategy> = Vec::new();
            strategies.push(Strategy { index: 0, state: board.backup(), value: 0 });
            let frontier = Frontier { strategies, solved: true, busy: 0, root: Ghost(board@) };
            assert(frontier@.waiting =~= seq![result_of(board@)]);
            proof {
                lemma_refines_reflexive(board@);
            }
            frontier
        } else {
            let strategies = board.branches();
            let frontier = Frontier { strategies, solved: false, busy: 0, root: Ghost(board@) };
            assert forall|k: int| 0 <= k < frontier@.waiting.len() implies is_branch(
                #[trigger] frontier@.waiting[k],
            ) && entry_below(frontier@.waiting[k], board@) by {
                assert(is_branch(strategies@[k]@));
                assert(frontier@.waiting[k] == branches_of(board@)[k]);
                lemma_branch_refines(board@, k);
            }
            frontier
        }
    }

    /// Whether a solution was found.
    pub fn is_solved(&self) -> (solved: bool)
        ensures
            solved == self@.solved,
    {
        self.solved
    }

    /// How many entries are waiting.
    pub fn len(&self) -> (n: usize)
        ensures
            n == self@.waiting.len(),
    {
        self.strategies.len()
    }

    /// How many branches are handed out and have not come back.
    pub fn busy(&self) -> (n: usize)
        ensures
            n == self@.busy,
    {
        self.busy
    }

    /// What a worker is to do next. Once a solution is found: to stop.
    /// Else, if an entry is waiting: to explore the one that was added
    /// last, which leaves the frontier and is counted as handed out. Else,
    /// if a branch is still out: to ask again. Else the search has run dry:
    /// to stop.
    pub fn next(&mut self) -> (task: Task)
        requires
            old(self).wf(),
        ensures
            final(self).wf(),
            final(self)@.root == old(self)@.root,
            final(self)@.solved == old(self)@.solved,
            old(self)@.solved ==> task is Finished && final(self)@ == old(self)@,
            !old(self)@.solved && old(self)@.waiting.len() == 0 ==> final(self)@ == old(self)@
                && (if old(self)@.busy == 0 {
                task is Finished
            } else {
                task is Idle
            }),
            !old(self)@.solved && old(self)@.waiting.len() > 0 ==> final(self)@.waiting == old(
                self,
            )@.waiting.drop_last() && final(self)@.busy == (if old(self)@.busy < usize::MAX {
                (old(self)@.busy + 1) as usize
            } else {
                old(self)@.busy
            }) && match task {
                Task::Explore(s) => s@ == old(self)@.waiting.last() && is_branch(s@)
                    && entry_below(s@, old(self)@.root),
                _ => false,
            },
    {
        if self.solved {
            return Task::Finished;
        }
        let ghost before = self.strategies@;
        match self.strategies.pop() {
            Some(s) => {
                assert(s@ == views(before)[before.len() - 1]);
                assert(views(self.strategies@) =~= views(before).drop_last());
                assert forall|k: int| 0 <= k < self@.waiting.len() implies is_branch(
                    #[trigger] self@.waiting[k],
                ) && entry_below(self@.waiting[k], self@.root) by {
                    assert(is_branch(old(self)@.waiting[k]));
                    assert(entry_below(old(self)@.waiting[k], old(self)@.root));
                }
                assert(entry_below(old(self)@.waiting[before.len() - 1], old(self)@.root));
                if self.busy < usize::MAX {
                    self.busy += 1;
                }
                Task::Explore(s)
            },
            None => {
                if self.busy == 0 {
                    Task::Finished
                } else {
                    Task::Idle
                }
            },
        }
    }

    /// Takes in what came out of a branch that was handed out, which is
    /// then out no more. A solution sets the flag and replaces all entries
    /// by the one that carries it; a later solution replaces an earlier one.
    /// New branches are added at the end, in their order, unless a solution
    /// is found already. A dead branch leaves nothing.
    pub fn absorb(&mut self, e: Expansion)
        requires
            old(self).wf(),
            is_expansion(e),
            expansion_below(e, old(self)@.root),
        ensures
            final(self).wf(),
            final(self)@.root == old(self)@.root,
            final(self)@.busy == if old(self)@.busy > 0 {
                (old(self)@.busy - 1) as usize
            } else {
                0usize
            },
            match e {
                Expansion::Dead => {
                    &&& final(self)@.waiting == old(self)@.waiting
                    &&& final(self)@.solved == old(self)@.solved
                },
                Expansion::Solved(r) => final(self)@.waiting == seq![r@] && final(self)@.solved,
                Expansion::Open(children) => final(self)@.solved == old(self)@.solved
                    && final(self)@.waiting == if old(self)@.solved {
                    old(self)@.waiting
                } else {
                    old(self)@.waiting + views(children@)
                },
            },
    {
        if self.busy > 0 {
            self.busy -= 1;
        }
        match e {
            Expansion::Dead => {
                assert(self@.waiting =~= old(self)@.waiting);
            },
            Expansion::Solved(r) => {
                self.solved = true;
                self.strategies.clear();
                self.strategies.push(r);
                assert(self@.waiting =~= seq![r@]);
            },
            Expansion::Open(children) => {
                if !self.solved {
                    let ghost before = self.strategies@;
                    let ghost added = children@;
                    let mut children = children;
                    self.strategies.append(&mut children);
                    assert(self@.waiting =~= old(self)@.waiting + views(added));
                    assert forall|k: int| 0 <= k < self@.waiting.len() implies is_branch(
                        #[trigger] self@.waiting[k],
                    ) && entry_below(self@.waiting[k], self@.root) by {
                        if k < before.len() {
                            assert(is_branch(old(self)@.waiting[k]));
                            assert(entry_below(old(self)@.waiting[k], old(self)@.root));
                        } else {
                            assert(is_branch(added[k - before.len()]@));
                            assert(entry_below(added[k - before.len()]@, old(self)@.root));
                        }
                    }
                }
            },
        }
    }

    /// Ends the search: puts the state of the entry that was added last on
    /// the board, if there is an entry, and says whether a solution was
    /// found. If one was found, that entry carries it.
    pub fn finish(&mut self, board: &mut Board) -> (solved: bool)
        requires
            old(self).wf(),
        ensures
            solved == old(self)@.solved,
            final(self)@.root == old(self)@.root,
            final(self)@.solved == old(self)@.solved,
            final(self)@.busy == old(self)@.busy,
            old(self)@.waiting.len() > 0 ==> final(board)@ == old(self)@.waiting.last().state
                && final(self)@.waiting == old(self)@.waiting.drop_last(),
            old(self)@.waiting.len() == 0 ==> final(board)@ == old(board)@ && final(self)@ == old(
                self,
            )@,
            solved ==> is_solved_state(final(board)@) && final(board).wf() && refines(
                final(board)@,
                old(self)@.root,
            ),
    {
        let ghost before = self.strategies@;
        match self.strategies.pop() {
            Some(s) => {
                assert(s@ == views(before)[before.len() - 1]);
                assert(views(self.strategies@) =~= views(before).drop_last());
                assert(board_wf(s@.state)) by {
                    assert(is_result(old(self)@.waiting[before.len() - 1]) || is_branch(
                        old(self)@.waiting[before.len() - 1],
                    ));
                }
                assert(entry_below(old(self)@.waiting[before.len() - 1], old(self)@.root));
                board.reset();
                board.restore(&s.state);
            },
            None => {},
        }
        self.solved
    }
}

/// What a branch leads to lies below the state in which the branch starts:
/// a solution came out of it, and so did the state of every new branch.
pub proof fn lemma_explored_refines(s: StrategyView, e: Expansion)
    requires
        is_branch(s),
        explored(s, e),
    ensures
        match e {
            Expansion::Dead => true,
            Expansion::Solved(r) => refines(r@.state, branch_state(s)),
            Expansion::Open(children) => forall|k: int|
                0 <= k < children@.len() ==> is_branch(#[trigger] children@[k]@) && refines(
                    branch_state(children@[k]@),
                    branch_state(s),
                ),
        },
{
    match e {
        Expansion::Open(children) => {
            let after = assign_model(s.state, s.index as int, s.value).1;
            assert(views(children@).len() == children@.len());
            assert(branches_of(after).len() == branch_digits(after).len());
            assert forall|k: int| 0 <= k < children@.len() implies is_branch(
                #[trigger] children@[k]@,
            ) && refines(branch_state(children@[k]@), branch_state(s)) by {
                assert(views(children@)[k] == children@[k]@);
                assert(branches_of(after)[k] == (StrategyView {
                    state: after,
                    index: branch_cell(after) as u8,
                    value: branch_digits(after)[k],
                }));
                lemma_branch_refines(after, k);
                lemma_refines_transitive(branch_state(children@[k]@), after, branch_state(s));
            }
        },
        _ => {},
    }
}

/// What a branch below `root` leads to lies below `root`.
pub proof fn lemma_explored_below(s: StrategyView, e: Expansion, root: Seq<CellState>)
    requires
        is_branch(s),
        explored(s, e),
        refines(branch_state(s), root),
    ensures
        expansion_below(e, root),
{
    lemma_explored_refines(s, e);
    match e {
        Expansion::Dead => {},
        Expansion::Solved(r) => {
            lemma_refines_transitive(r@.state, branch_state(s), root);
        },
        Expansion::Open(children) => {
            assert forall|k: int| 0 <= k < children@.len() implies entry_below(
                #[trigger] children@[k]@,
                root,
            ) by {
                lemma_refines_transitive(branch_state(children@[k]@), branch_state(s), root);
            }
        },
    }
}

/// Exploring a branch loses no solution: a solution that starts with the
/// branch is the one that was found, or it starts with one of the new
/// branches.
pub proof fn lemma_explored_keeps_solutions(s: StrategyView, e: Expansion, g: Seq<u8>)
    requires
        is_branch(s),
        explored(s, e),
        is_solution(g),
        admits(branch_state(s), g),
    ensures
        match e {
            Expansion::Dead => false,
            Expansion::Solved(r) => values_of(r@.state) == g,
            Expansion::Open(children) => exists|k: int|
                0 <= k < children@.len() && admits(branch_state(#[trigger] children@[k]@), g),
        },
{
    match e {
        Expansion::Dead => {
            assert(solvable(branch_state(s)));
        },
        Expansion::Solved(r) => {
            assert(admits(r@.state, g));
            assert forall|i: int| 0 <= i < 81 implies values_of(r@.state)[i] == g[i] by {
                assert(is_digit(values_of(r@.state)[i]));
                assert(r@.state[i].0 > 0);
            }
            assert(values_of(r@.state) =~= g);
        },
        Expansion::Open(children) => {
            let after = assign_model(s.state, s.index as int, s.value).1;
            assert(admits(after, g));
            lemma_branches_cover(after, g);
            let k = choose|k: int|
                0 <= k < branch_digits(after).len() && #[trigger] branch_digits(after)[k]
                    == g[branch_cell(after)];
            assert(views(children@).len() == children@.len());
            assert(branches_of(after).len() == branch_digits(after).len());
            assert(views(children@)[k] == children@[k]@);
            assert(branches_of(after)[k] == (StrategyView {
                state: after,
                index: branch_cell(after) as u8,
                value: branch_digits(after)[k],
            }));
            assert(admits(branch_state(children@[k]@), g));
        },
    }
}

/// Ten to the power of `n`.
pub open spec fn pow10(n: nat) -> nat
    decreases n,
{
    if n == 0 {
        1
    } else {
        10 * pow10((n - 1) as nat)
    }
}

/// The weight of a branch: ten to the number of cells that are open when
/// it starts. A branch weighs more than all the branches that it leads to
/// taken together.
pub open spec fn weight(s: StrategyView) -> nat {
    pow10(open_count(branch_state(s)))
}

/// The weight of all entries taken together.
pub open spec fn total_weight(entries: Seq<StrategyView>) -> nat
    decreases entries.len(),
{
    if entries.len() == 0 {
        0
    } else {
        total_weight(entries.drop_last()) + weight(entries.last())
    }
}

/// Some entry starts in a state from which a solution can still come out.
pub open spec fn some_solvable(entries: Seq<StrategyView>) -> bool {
    exists|k: int| 0 <= k < entries.len() && solvable(branch_state(#[trigger] entries[k]))
}

/// Powers of ten are positive and grow with the exponent.
pub proof fn lemma_pow10_monotone(m: nat, n: nat)
    requires
        m <= n,
    ensures
        0 < pow10(m) <= pow10(n),
    decreases n,
{
    if n > 0 {
        if m < n {
            lemma_pow10_monotone(m, (n - 1) as nat);
        } else {
            lemma_pow10_monotone((m - 1) as nat, (n - 1) as nat);
        }
    }
}

/// The weight of two sequences of entries is the sum of their weights.
pub proof fn lemma_total_weight_add(a: Seq<StrategyView>, b: Seq<StrategyView>)
    ensures
        total_weight(a + b) == total_weight(a) + total_weight(b),
    decreases b.len(),
{
    if b.len() == 0 {
        assert(a + b =~= a);
    } else {
        lemma_total_weight_add(a, b.drop_last());
        assert((a + b).drop_last() =~= a + b.drop_last());
        assert((a + b).last() == b.last());
    }
}

/// Entries that weigh at most `bound` each weigh at most their number
/// times `bound` together.
proof fn lemma_total_weight_bound(entries: Seq<StrategyView>, bound: nat)
    requires
        forall|k: int| 0 <= k < entries.len() ==> weight(#[trigger] entries[k]) <= bound,
    ensures
        total_weight(entries) <= entries.len() * bound,
    decreases entries.len(),
{
    if entries.len() > 0 {
        let rest = entries.drop_last();
        assert forall|k: int| 0 <= k < rest.len() implies weight(#[trigger] rest[k]) <= bound by {
            assert(rest[k] == entries[k]);
        }
        lemma_total_weight_bound(rest, bound);
        assert(weight(entries.last()) <= bound);
        assert(entries.len() * bound == rest.len() * bound + bound) by (nonlinear_arith)
            requires
                entries.len() == rest.len() + 1,
        ;
    }
}

/// The branches that a branch leads to weigh less together than the
/// branch.
pub proof fn lemma_explored_weighs_less(s: StrategyView, e: Expansion)
    requires
        is_branch(s),
        explored(s, e),
    ensures
        match e {
            Expansion::Open(children) => total_weight(views(children@)) < weight(s),
            _ => true,
        },
{
    match e {
        Expansion::Open(children) => {
            let start = branch_state(s);
            let after = assign_model(s.state, s.index as int, s.value).1;
            let entries = views(children@);
            lemma_refines_open_count(after, start);
            lemma_mask_digits(after[branch_cell(after)].1);
            lemma_pow10_monotone(0, open_count(start));
            if entries.len() > 0 {
                lemma_branch_refines(after, 0);
                let n = open_count(start);
                let bound = pow10((n - 1) as nat);
                assert forall|k: int| 0 <= k < entries.len() implies weight(
                    #[trigger] entries[k],
                ) <= bound by {
                    lemma_branch_refines(after, k);
                    assert(entries[k] == branches_of(after)[k]);
                    lemma_pow10_monotone(open_count(branch_state(entries[k])), (n - 1) as nat);
                }
                lemma_total_weight_bound(entries, bound);
                lemma_pow10_monotone(0, (n - 1) as nat);
                assert(entries.len() * bound < 10 * bound) by (nonlinear_arith)
                    requires
                        entries.len() <= 9,
                        0 < bound,
                ;
            }
        },
        _ => {},
    }
}

impl Board {
    /// Solves the board through a frontier, as a pool of one worker does:
    /// it takes the entry that was added last, explores it and hands back
    /// what came out, until the frontier says that the search is over.
    ///
    /// `true` says that the board now holds a solution, which came out of
    /// the state at the call. `false` says that no solution can come out of
    /// that state; the board is then as it was.
    pub fn solve_alone(&mut self) -> (solved: bool)
        requires
            old(self).wf(),
        ensures
            final(self).wf(),
            solved == solvable(old(self)@),
            solved ==> is_solved_state(final(self)@) && refines(final(self)@, old(self)@),
            !solved ==> final(self)@ == old(self)@,
    {
        let mut frontier = Frontier::new(self);
        let ghost root = self@;
        proof {
            if !is_solved_state(root) && solvable(root) {
                let g = choose|g: Seq<u8>| is_solution(g) && #[trigger] admits(root, g);
                lemma_branches_cover(root, g);
                let k = choose|k: int|
                    0 <= k < branch_digits(root).len() && #[trigger] branch_digits(root)[k]
                        == g[branch_cell(root)];
                assert(admits(branch_state(branches_of(root)[k]), g));
                assert(some_solvable(frontier@.waiting));
            }
        }
        let mut running = true;
        while running
            invariant
                frontier.wf(),
                frontier@.root == root,
                frontier@.busy == 0,
                self@ == root,
                self.wf(),
                running && solvable(root) ==> frontier@.solved || some_solvable(frontier@.waiting),
                !running ==> frontier@.solved || frontier@.waiting.len() == 0,
                !running && solvable(root) ==> frontier@.solved,
            decreases
                    if !running {
                        0
                    } else if frontier@.solved {
                        1
                    } else {
                        2 + total_weight(frontier@.waiting)
                    },
        {
            let ghost before = frontier@;
            match frontier.next() {
                Task::Explore(s) => {
                    let e = s.explore();
                    proof {
                        lemma_explored_weighs_less(s@, e);
                        lemma_total_weight_add(before.waiting.drop_last(), views(open_of(e)));
                        lemma_pow10_monotone(0, open_count(branch_state(s@)));
                        assert(total_weight(before.waiting) == total_weight(
                            before.waiting.drop_last(),
                        ) + weight(s@));
                        assert(total_weight(views(open_of(e))) < weight(s@)) by {
                            if !(e is Open) {
                                assert(views(open_of(e)).len() == 0);
                            }
                        }
                        if solvable(root) {
                            let k = choose|k: int|
                                0 <= k < before.waiting.len() && solvable(
                                    branch_state(#[trigger] before.waiting[k]),
                                );
                            if k == before.waiting.len() - 1 {
                                let g = choose|g: Seq<u8>|
                                    is_solution(g) && #[trigger] admits(branch_state(s@), g);
                                lemma_explored_keeps_solutions(s@, e, g);
                            }
                        }
                    }
                    frontier.absorb(e);
                    proof {
                        assert(!frontier@.solved ==> frontier@.waiting
                            =~= before.waiting.drop_last() + views(open_of(e)));
                        if solvable(root) && !frontier@.solved {
                            let k = choose|k: int|
                                0 <= k < before.waiting.len() && solvable(
                                    branch_state(#[trigger] before.waiting[k]),
                                );
                            if k == before.waiting.len() - 1 {
                                let g = choose|g: Seq<u8>|
                                    is_solution(g) && #[trigger] admits(branch_state(s@), g);
                                let j = choose|j: int|
                                    0 <= j < open_of(e).len() && admits(
                                        branch_state(#[trigger] open_of(e)[j]@),
                                        g,
                                    );
                                let at = before.waiting.len() - 1 + j;
                                assert(frontier@.waiting[at] == open_of(e)[j]@);
                                assert(solvable(branch_state(frontier@.waiting[at])));
                            } else {
                                assert(frontier@.waiting[k] == before.waiting[k]);
                            }
                        }
                    }
                },
                _ => {
                    running = false;
                },
            }
        }
        let solved = frontier.finish(self);
        proof {
            if solved {
                lemma_solved_admits_itself(self@);
                lemma_refines_admits(self@, root, values_of(self@));
            }
        }
        solved
    }
}

/// The branches that an expansion brings, none unless it is open.
pub open spec fn open_of(e: Expansion) -> Seq<Strategy> {
    match e {
        Expansion::Open(children) => children@,
        _ => Seq::empty(),
    }
}

/// A solved state that came out of `root` holds a solution that `root`
/// admits; where `root` admits only one, it is that one. So the search of
/// the pool, whatever the order in which its workers come to their turns,
/// ends with the grid that `Board::solve` ends with.
pub proof fn lemma_result_is_the_solution(root: Seq<CellState>, result: Seq<CellState>, g: Seq<u8>)
    requires
        result.len() == 81,
        is_solved_state(result),
        refines(result, root),
        is_solution(g),
        forall|h: Seq<u8>| is_solution(h) && #[trigger] admits(root, h) ==> h == g,
    ensures
        values_of(result) == g,
{
    lemma_solved_admits_itself(result);
    lemma_refines_admits(result, root, values_of(result));
}

/// On a puzzle with one solution and no other, two searches that answer
/// as `Board::solve`, `Board::solve_alone` and `Board::solve_in_turns` do
/// both succeed and end with the same grid.
pub proof fn lemma_searches_agree(
    root: Seq<CellState>,
    first: Seq<CellState>,
    first_solved: bool,
    second: Seq<CellState>,
    second_solved: bool,
    g: Seq<u8>,
)
    requires
        root.len() == 81,
        is_solution(g),
        admits(root, g),
        forall|h: Seq<u8>| is_solution(h) && #[trigger] admits(root, h) ==> h == g,
        board_wf(first),
        board_wf(second),
        first_solved == solvable(root),
        first_solved ==> is_solved_state(first) && refines(first, root),
        second_solved == solvable(root),
        second_solved ==> is_solved_state(second) && refines(second, root),
    ensures
        first_solved,
        second_solved,
        values_of(first) == g,
        values_of(second) == g,
        first == second,
{
    lemma_result_is_the_solution(root, first, g);
    lemma_result_is_the_solution(root, second, g);
    assert forall|i: int| 0 <= i < 81 implies first[i] == second[i] by {
        assert(values_of(first)[i] == values_of(second)[i]);
        assert(is_digit(values_of(first)[i]));
        assert(first[i].0 > 0 && second[i].0 > 0);
    }
    assert(first =~= second);
}

} // verus!
