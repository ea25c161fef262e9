//! The pool of workers, turn by turn.
//!
//! A worker's turn is one of the two short steps that it makes on the
//! frontier: it takes a task, or it hands back what came out of the branch
//! that it holds. Exploring the branch, between the two, reads nothing that
//! is shared, so it is counted to the moment of handing back. Workers that
//! run side by side and make their steps on the frontier one at a time
//! come to their turns in some order; in whatever order they do, the search
//! loses no solution, every turn that does something brings the end
//! nearer, and while a worker has not stopped there is a turn that does
//! something.

use vstd::prelude::*;
use crate::board::Board;
use crate::grid::{
    count_true, is_solution, lemma_count_true_bound, lemma_count_true_clear, lemma_count_true_none,
    lemma_count_true_set,
};
use crate::model::assign_model;
use crate::search::{
    Frontier, FrontierView, Strategy, StrategyView, Task, branch_state, branches_of, entry_below,
    is_branch, open_of, result_of, some_solvable, total_weight, views, weight,
    lemma_explored_keeps_solutions, lemma_explored_weighs_less, lemma_pow10_monotone,
    lemma_total_weight_add,
};
use crate::state::{
    admits, branch_cell, branch_digits, is_solved_state, open_count, refines, solvable, values_of,
    lemma_branches_cover, lemma_refines_admits, lemma_solved_admits_itself,
};

verus! {

/// A pool as plain values: its frontier, the branch that each worker
/// holds, and the workers that have not stopped.
pub struct PoolView {
    pub frontier: FrontierView,
    pub hands: Seq<Option<StrategyView>>,
    pub running: Seq<bool>,
}

/// Which workers hold a branch.
pub open spec fn holding(hands: Seq<Option<StrategyView>>) -> Seq<bool> {
    Seq::new(hands.len(), |i: int| hands[i] is Some)
}

/// The frontier after it took in what exploring branch `s` gives.
pub open spec fn frontier_after(f: FrontierView, s: StrategyView) -> FrontierView {
    let after = assign_model(s.state, s.index as int, s.value);
    let busy = if f.busy > 0 {
        (f.busy - 1) as usize
    } else {
        0usize
    };
    if !after.0 {
        FrontierView { busy, ..f }
    } else if is_solved_state(after.1) {
        FrontierView { waiting: seq![result_of(after.1)], solved: true, busy, ..f }
    } else if f.solved {
        FrontierView { busy, ..f }
    } else {
        FrontierView { waiting: f.waiting + branches_of(after.1), busy, ..f }
    }
}

/// The frontier after its last entry was handed out.
pub open spec fn frontier_taken(f: FrontierView) -> FrontierView {
    FrontierView {
        waiting: f.waiting.drop_last(),
        busy: if f.busy < usize::MAX {
            (f.busy + 1) as usize
        } else {
            f.busy
        },
        ..f
    }
}

/// The search is over for a worker that asks: a solution is found, or no
/// entry waits and no branch is out.
pub open spec fn is_over(f: FrontierView) -> bool {
    f.solved || (f.waiting.len() == 0 && f.busy == 0)
}

/// The pool after a turn of worker `w`. A worker that has stopped does
/// nothing. One that holds a branch hands back what exploring it gives. One
/// that holds none stops if the search is over, takes the entry that was
/// added last if one waits, and else does nothing.
pub open spec fn pool_step(p: PoolView, w: int) -> PoolView {
    if !p.running[w] {
        p
    } else {
        match p.hands[w] {
            Some(s) => PoolView {
                frontier: frontier_after(p.frontier, s),
                hands: p.hands.update(w, None),
                ..p
            },
            None => if is_over(p.frontier) {
                PoolView { running: p.running.update(w, false), ..p }
            } else if p.frontier.waiting.len() == 0 {
                p
            } else {
                PoolView {
                    frontier: frontier_taken(p.frontier),
                    hands: p.hands.update(w, Some(p.frontier.waiting.last())),
                    ..p
                }
            },
        }
    }
}

/// A turn of worker `w` does something: the worker has not stopped, and it
/// holds a branch, or the search is over, or an entry waits.
pub open spec fn turn_works(p: PoolView, w: int) -> bool {
    p.running[w] && (p.hands[w] is Some || is_over(p.frontier) || p.frontier.waiting.len() > 0)
}

/// The weight of what a worker holds: a branch in a hand weighs a little
/// less than twice its weight, which is what it weighs while it waits.
pub open spec fn hand_weight(h: Option<StrategyView>) -> nat {
    match h {
        Some(s) => (2 * weight(s) - 1) as nat,
        None => 0,
    }
}

/// The weight of what the first `n` workers hold.
pub open spec fn hands_weight(hands: Seq<Option<StrategyView>>, n: int) -> nat
    decreases n,
{
    if n <= 0 {
        0
    } else {
        hands_weight(hands, n - 1) + hand_weight(hands[n - 1])
    }
}

/// How far the pool is from its end: the weight of the entries that wait
/// while no solution is found, of the branches that are out, and the number
/// of workers that have not stopped.
pub open spec fn distance(p: PoolView) -> nat {
    (if p.frontier.solved {
        0nat
    } else {
        2 * total_weight(p.frontier.waiting)
    }) + hands_weight(p.hands, p.hands.len() as int) + count_true(
        p.running,
        p.running.len() as int,
    )
}

/// While a solution can come out of the state that the search started
/// from, one is found, or one can come out of an entry that waits or of a
/// branch that is out.
pub open spec fn keeps_a_solution(p: PoolView) -> bool {
    solvable(p.frontier.root) ==> p.frontier.solved || some_solvable(p.frontier.waiting)
        || exists|w: int|
        0 <= w < p.hands.len() && (#[trigger] p.hands[w]) is Some && solvable(
            branch_state(p.hands[w].unwrap()),
        )
}

/// The pool is in order: each worker that holds a branch has not stopped,
/// the branch lies below the state that the search started from, the
/// frontier counts the branches that are out, and a worker has stopped only
/// when the search was over.
pub open spec fn pool_wf(p: PoolView) -> bool {
    &&& p.hands.len() == p.running.len()
    &&& p.hands.len() >= 1
    &&& p.frontier.busy == count_true(holding(p.hands), p.hands.len() as int)
    &&& forall|w: int|
        0 <= w < p.hands.len() ==> match #[trigger] p.hands[w] {
            Some(s) => is_branch(s) && entry_below(s, p.frontier.root) && p.running[w],
            None => true,
        }
    &&& forall|w: int| 0 <= w < p.running.len() && !#[trigger] p.running[w] ==> is_over(p.frontier)
}

/// How the weight of the hands changes with one hand.
pub proof fn lemma_hands_weight_update(
    hands: Seq<Option<StrategyView>>,
    w: int,
    h: Option<StrategyView>,
    n: int,
)
    requires
        0 <= w < hands.len(),
        0 <= n <= hands.len(),
    ensures
        hands_weight(hands.update(w, h), n) + (if w < n {
            hand_weight(hands[w])
        } else {
            0nat
        }) == hands_weight(hands, n) + (if w < n {
            hand_weight(h)
        } else {
            0nat
        }),
    decreases n,
{
    if n > 0 {
        lemma_hands_weight_update(hands, w, h, n - 1);
    }
}

/// The workers of a search and what they hold.
pub struct Pool {
    frontier: Frontier,
    hands: Vec<Option<Strategy>>,
    running: Vec<bool>,
}

/// The view of what a worker holds.
pub open spec fn hand_view(h: Option<Strategy>) -> Option<StrategyView> {
    match h {
        Some(s) => Some(s@),
        None => None,
    }
}

impl View for Pool {
    type V = PoolView;

    closed spec fn view(&self) -> PoolView {
        PoolView {
            frontier: self.frontier@,
            hands: Seq::new(self.hands@.len(), |i: int| hand_view(self.hands@[i])),
            running: self.running@,
        }
    }
}

impl Pool {
    /// The frontier and the pool are in order.
    pub closed spec fn wf(&self) -> bool {
        self.frontier.wf() && pool_wf(self@)
    }

    /// A pool of `workers` workers for the search from the state of the
    /// board: no worker holds a branch, none has stopped.
    pub fn new(board: &Board, workers: usize) -> (pool: Self)
        requires
            board.wf(),
            workers >= 1,
        ensures
            pool.wf(),
            pool@.frontier.root == board@,
            pool@.frontier.busy == 0,
            pool@.frontier.solved == is_solved_state(board@),
            is_solved_state(board@) ==> pool@.frontier.waiting == seq![result_of(board@)],
            !is_solved_state(board@) ==> pool@.frontier.waiting == branches_of(board@),
            pool@.hands == Seq::new(workers as nat, |i: int| None::<StrategyView>),
            pool@.running == Seq::new(workers as nat, |i: int| true),
            keeps_a_solution(pool@),
    {
        let frontier = Frontier::new(board);
        let mut hands: Vec<Option<Strategy>> = Vec::new();
        let mut running: Vec<bool> = Vec::new();
        let mut i: usize = 0;
        while i < workers
            invariant
                0 <= i <= workers,
                hands@.len() == i,
                running@.len() == i,
                forall|k: int| 0 <= k < i ==> (#[trigger] hands@[k]) is None,
                forall|k: int| 0 <= k < i ==> #[trigger] running@[k],
            decreases workers - i,
        {
            hands.push(None);
            running.push(true);
            i += 1;
        }
        let pool = Pool { frontier, hands, running };
        proof {
            assert(pool@.hands =~= Seq::new(workers as nat, |i: int| None::<StrategyView>));
            assert(pool@.running =~= Seq::new(workers as nat, |i: int| true));
            lemma_count_true_none(holding(pool@.hands), workers as int);
            let root = board@;
            if !is_solved_state(root) && solvable(root) {
                let g = choose|g: Seq<u8>| is_solution(g) && #[trigger] admits(root, g);
                lemma_branches_cover(root, g);
                let k = choose|k: int|
                    0 <= k < branch_digits(root).len() && #[trigger] branch_digits(root)[k]
                        == g[branch_cell(root)];
                assert(admits(branch_state(branches_of(root)[k]), g));
                assert(some_solvable(pool@.frontier.waiting));
            }
        }
        pool
    }

    /// How many workers the pool has.
    pub fn workers(&self) -> (n: usize)
        ensures
            n == self@.hands.len(),
    {
        self.hands.len()
    }

    /// A turn of worker `worker`, as `pool_step` says. No turn loses a
    /// solution or moves the pool away from its end, and a turn that does
    /// something brings the end nearer.
    pub fn turn(&mut self, worker: usize)
        requires
            old(self).wf(),
            worker < old(self)@.hands.len(),
        ensures
            final(self)@ == pool_step(old(self)@, worker as int),
            final(self).wf(),
            keeps_a_solution(old(self)@) ==> keeps_a_solution(final(self)@),
            distance(final(self)@) <= distance(old(self)@),
            turn_works(old(self)@, worker as int) ==> distance(final(self)@) < distance(
                old(self)@,
            ),
    {
        let ghost before = self@;
        let ghost n = before.hands.len() as int;
        let workers = self.hands.len();
        assert(workers == n);
        if !self.running[worker] {
            return ;
        }
        let hand = self.hands[worker].take();
        assert(self@.hands =~= before.hands.update(worker as int, None));
        proof {
            lemma_count_true_bound(holding(before.hands), n);
            lemma_count_true_bound(before.running, n);
        }
        match hand {
            Some(s) => {
                assert(before.hands[worker as int] == Some(s@));
                let e = s.explore();
                proof {
                    assert(holding(self@.hands) =~= holding(before.hands).update(
                        worker as int,
                        false,
                    ));
                    lemma_count_true_clear(holding(before.hands), worker as int, n);
                    lemma_hands_weight_update(before.hands, worker as int, None, n);
                    lemma_explored_weighs_less(s@, e);
                    lemma_pow10_monotone(0, open_count(branch_state(s@)));
                    lemma_total_weight_add(before.frontier.waiting, views(open_of(e)));
                    assert(total_weight(views(open_of(e))) < weight(s@)) by {
                        if !(e is Open) {
                            assert(views(open_of(e)).len() == 0);
                        }
                    }
                }
                self.frontier.absorb(e);
                proof {
                    assert(self@.frontier.waiting =~= frontier_after(before.frontier, s@).waiting);
                    assert(self@.frontier == frontier_after(before.frontier, s@));
                    assert(self@.frontier.busy == count_true(holding(self@.hands), n));
                    if keeps_a_solution(before) && solvable(before.frontier.root)
                        && !self@.frontier.solved {
                        if some_solvable(before.frontier.waiting) {
                            let k = choose|k: int|
                                0 <= k < before.frontier.waiting.len() && solvable(
                                    branch_state(#[trigger] before.frontier.waiting[k]),
                                );
                            assert(self@.frontier.waiting[k] == before.frontier.waiting[k]);
                            assert(some_solvable(self@.frontier.waiting));
                        } else {
                            let v = choose|v: int|
                                0 <= v < before.hands.len() && (#[trigger] before.hands[v])
                                    is Some && solvable(branch_state(before.hands[v].unwrap()));
                            if v == worker {
                                let g = choose|g: Seq<u8>|
                                    is_solution(g) && #[trigger] admits(branch_state(s@), g);
                                lemma_explored_keeps_solutions(s@, e, g);
                                let j = choose|j: int|
                                    0 <= j < open_of(e).len() && admits(
                                        branch_state(#[trigger] open_of(e)[j]@),
                                        g,
                                    );
                                let at = before.frontier.waiting.len() + j;
                                assert(self@.frontier.waiting[at] == open_of(e)[j]@);
                                assert(solvable(branch_state(self@.frontier.waiting[at])));
                                assert(some_solvable(self@.frontier.waiting));
                            } else {
                                assert(self@.hands[v] == before.hands[v]);
                            }
                        }
                    }
                }
            },
            None => {
                assert(self@.hands =~= before.hands);
                match self.frontier.next() {
                    Task::Finished => {
                        self.running[worker] = false;
                        proof {
                            assert(self@.running =~= before.running.update(worker as int, false));
                            lemma_count_true_clear(before.running, worker as int, n);
                            assert(self@.frontier.busy == count_true(holding(self@.hands), n));
                        }
                    },
                    Task::Idle => {
                        assert(self@.frontier.busy == count_true(holding(self@.hands), n));
                    },
                    Task::Explore(s) => {
                        proof {
                            lemma_count_true_set(holding(before.hands), worker as int, n);
                            lemma_count_true_bound(
                                holding(before.hands).update(worker as int, true),
                                n,
                            );
                            lemma_hands_weight_update(
                                before.hands,
                                worker as int,
                                Some(s@),
                                n,
                            );
                            lemma_pow10_monotone(0, open_count(branch_state(s@)));
                            let waiting = before.frontier.waiting;
                            assert(waiting =~= waiting.drop_last().push(s@));
                        }
                        self.hands[worker] = Some(s);
                        proof {
                            assert(self@.hands =~= before.hands.update(worker as int, Some(s@)));
                            assert(holding(self@.hands) =~= holding(before.hands).update(
                                worker as int,
                                true,
                            ));
                            assert(self@.frontier.busy == count_true(holding(self@.hands), n));
                            if keeps_a_solution(before) && solvable(before.frontier.root) {
                                if some_solvable(before.frontier.waiting) {
                                    let k = choose|k: int|
                                        0 <= k < before.frontier.waiting.len() && solvable(
                                            branch_state(#[trigger] before.frontier.waiting[k]),
                                        );
                                    if k == before.frontier.waiting.len() - 1 {
                                        assert(self@.hands[worker as int] == Some(s@));
                                    } else {
                                        assert(self@.frontier.waiting[k]
                                            == before.frontier.waiting[k]);
                                        assert(some_solvable(self@.frontier.waiting));
                                    }
                                } else {
                                    let v = choose|v: int|
                                        0 <= v < before.hands.len() && (#[trigger] before.hands[v])
                                            is Some && solvable(
                                            branch_state(before.hands[v].unwrap()),
                                        );
                                    assert(self@.hands[v] == before.hands[v]);
                                }
                            }
                        }
                    },
                }
            },
        }
    }
    /// A worker whose turn does something: the first that holds a branch,
    /// or else the first that has not stopped. None once all have stopped.
    pub fn next_worker(&self) -> (next: Option<usize>)
        requires
            self.wf(),
        ensures
            match next {
                Some(w) => w < self@.hands.len() && turn_works(self@, w as int),
                None => forall|w: int|
                    0 <= w < self@.running.len() ==> !#[trigger] self@.running[w],
            },
    {
        let n = self.hands.len();
        let mut w: usize = 0;
        while w < n
            invariant
                0 <= w <= n,
                self.wf(),
                n == self.hands@.len(),
                forall|v: int| 0 <= v < w ==> (#[trigger] self.hands@[v]) is None,
            decreases n - w,
        {
            if self.hands[w].is_some() {
                assert(self@.hands[w as int] is Some);
                return Some(w);
            }
            w += 1;
        }
        proof {
            assert forall|v: int| 0 <= v < n implies !#[trigger] holding(self@.hands)[v] by {
                assert(self.hands@[v] is None);
            }
            lemma_count_true_none(holding(self@.hands), n as int);
        }
        let mut w: usize = 0;
        while w < n
            invariant
                0 <= w <= n,
                self.wf(),
                n == self.running@.len(),
                n == self.hands@.len(),
                self@.frontier.busy == 0,
                forall|v: int| 0 <= v < n ==> (#[trigger] self.hands@[v]) is None,
                forall|v: int| 0 <= v < w ==> !#[trigger] self.running@[v],
            decreases n - w,
        {
            if self.running[w] {
                assert(self@.hands[w as int] is None);
                return Some(w);
            }
            w += 1;
        }
        None
    }

    /// Ends the search as `Frontier::finish` does: puts the state of the
    /// entry that was added last on the board, if there is an entry, and
    /// says whether a solution was found.
    pub fn finish(&mut self, board: &mut Board) -> (solved: bool)
        requires
            old(self).wf(),
        ensures
            solved == old(self)@.frontier.solved,
            old(self)@.frontier.waiting.len() > 0 ==> final(board)@ == old(
                self,
            )@.frontier.waiting.last().state,
            old(self)@.frontier.waiting.len() == 0 ==> final(board)@ == old(board)@,
            solved ==> is_solved_state(final(board)@) && final(board).wf() && refines(
                final(board)@,
                old(self)@.frontier.root,
            ),
    {
        self.frontier.finish(board)
    }
}

impl Board {
    /// Solves the board as a pool of `workers` workers does whose turns come
    /// in the order of `turns`, each entry naming the worker by its
    /// remainder; when the list is at its end, the workers whose turns do
    /// something go on until all have stopped.
    ///
    /// Whatever the number of workers and whatever their turns, the search
    /// ends, and it answers as `Board::solve` does: `true` says that the
    /// board now holds a solution, which came out of the state at the call;
    /// `false` says that no solution can come out of that state, and the
    /// board is then as it was.
    pub fn solve_in_turns(&mut self, workers: usize, turns: &Vec<usize>) -> (solved: bool)
        requires
            old(self).wf(),
            workers >= 1,
        ensures
            final(self).wf(),
            solved == solvable(old(self)@),
            solved ==> is_solved_state(final(self)@) && refines(final(self)@, old(self)@),
            !solved ==> final(self)@ == old(self)@,
    {
        let mut pool = Pool::new(self, workers);
        let ghost root = self@;
        let mut i: usize = 0;
        while i < turns.len()
            invariant
                0 <= i <= turns@.len(),
                workers >= 1,
                pool.wf(),
                pool@.hands.len() == workers,
                pool@.frontier.root == root,
                keeps_a_solution(pool@),
            decreases turns@.len() - i,
        {
            pool.turn(turns[i] % workers);
            i += 1;
        }
        let mut going = true;
        while going
            invariant
                pool.wf(),
                pool@.hands.len() == workers,
                pool@.frontier.root == root,
                keeps_a_solution(pool@),
                !going ==> forall|w: int|
                    0 <= w < pool@.running.len() ==> !#[trigger] pool@.running[w],
            decreases
                    if going {
                        1 + distance(pool@)
                    } else {
                        0
                    },
        {
            match pool.next_worker() {
                Some(w) => {
                    pool.turn(w);
                },
                None => {
                    going = false;
                },
            }
        }
        proof {
            pool.lemma_at_the_end();
        }
        let solved = pool.finish(self);
        proof {
            if solved {
                lemma_solved_admits_itself(self@);
                lemma_refines_admits(self@, root, values_of(self@));
            }
        }
        solved
    }
}

impl Pool {
    /// Once every worker has stopped, a solution is found if there is one,
    /// and nothing waits if none is found.
    pub proof fn lemma_at_the_end(&self)
        requires
            self.wf(),
            keeps_a_solution(self@),
            forall|w: int| 0 <= w < self@.running.len() ==> !#[trigger] self@.running[w],
        ensures
            solvable(self@.frontier.root) ==> self@.frontier.solved,
            !self@.frontier.solved ==> self@.frontier.waiting.len() == 0,
    {
        let p = self@;
        assert(!p.running[0]);
        assert(is_over(p.frontier));
        if !p.frontier.solved && solvable(p.frontier.root) {
            assert(!some_solvable(p.frontier.waiting));
            let w = choose|w: int|
                0 <= w < p.hands.len() && (#[trigger] p.hands[w]) is Some && solvable(
                    branch_state(p.hands[w].unwrap()),
                );
            assert(p.running[w]);
        }
    }
}

} // verus!
