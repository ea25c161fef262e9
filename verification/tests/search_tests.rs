use rand::random;
use sudoku::board::Board;
use sudoku::pool::Pool;
use sudoku::search::{pool_size, Expansion, Frontier, Task};

const PUZZLE: &str =
    "4.....8.5.3..........7......2.....6.....8.4......1.......6.3.7.5..2.....1.4......";
const SOLUTION: &str =
    "417369825632158947958724316825437169791586432346912758289643571573291684164875293";

fn run_alone(frontier: &mut Frontier) -> usize {
    let mut explored = 0;
    loop {
        match frontier.next() {
            Task::Finished => return explored,
            Task::Idle => return explored,
            Task::Explore(s) => {
                explored += 1;
                let e = s.explore();
                frontier.absorb(e);
            }
        }
    }
}

#[test]
fn branches_are_the_candidates_of_the_branch_cell() {
    let mut board = Board::new();
    assert_eq!(board.init(PUZZLE), Ok(true));
    let (index, candidates) = board.next_candidate_cell();
    let branches = board.branches();
    assert_eq!(branches.len(), candidates.len());
    for (s, c) in branches.iter().zip(candidates.iter()) {
        assert_eq!(s.index(), index);
        assert_eq!(s.value(), *c);
        assert_eq!(s.state(), &board.backup());
    }
}

#[test]
fn frontier_search_finds_the_solution_of_solve() {
    let mut board = Board::new();
    assert_eq!(board.init(PUZZLE), Ok(true));
    let mut frontier = Frontier::new(&board);
    assert!(!frontier.is_solved());
    assert!(frontier.len() > 0);
    let explored = run_alone(&mut frontier);
    assert!(explored > 0);
    assert!(frontier.is_solved());
    assert_eq!(frontier.len(), 1);
    let mut result = Board::new();
    assert!(frontier.finish(&mut result));
    assert_eq!(frontier.len(), 0);
    assert_eq!(result.serialize(), SOLUTION);

    let mut direct = Board::new();
    assert_eq!(direct.init(PUZZLE), Ok(true));
    assert!(direct.solve());
    assert_eq!(direct.serialize(), result.serialize());
}

#[test]
fn frontier_of_a_solved_board_is_finished() {
    let mut board = Board::new();
    board.load_game(SOLUTION);
    let mut frontier = Frontier::new(&board);
    assert!(frontier.is_solved());
    assert!(matches!(frontier.next(), Task::Finished));
    let mut result = Board::new();
    assert!(frontier.finish(&mut result));
    assert_eq!(result.serialize(), SOLUTION);
}

#[test]
fn frontier_runs_dry_without_solution() {
    let mut board = Board::new();
    board.load_game(SOLUTION);
    let mut state = board.backup();
    state[0] = (0, 256);
    board.restore(&state);
    let mut frontier = Frontier::new(&board);
    assert_eq!(frontier.len(), 1);
    let explored = run_alone(&mut frontier);
    assert_eq!(explored, 1);
    assert!(!frontier.is_solved());
    assert_eq!(frontier.busy(), 0);
    assert!(matches!(frontier.next(), Task::Finished));
    let mut result = Board::new();
    assert!(!frontier.finish(&mut result));
    assert_eq!(result.backup(), Board::new().backup());
}

#[test]
fn explore_tells_dead_solved_and_open() {
    // a branch that solves: one open cell with its digit
    let mut board = Board::new();
    board.load_game(SOLUTION);
    let mut state = board.backup();
    state[0] = (0, 0b1000);
    board.restore(&state);
    let branches = board.branches();
    assert_eq!(branches.len(), 1);
    assert_eq!((branches[0].index(), branches[0].value()), (0, 4));
    match branches[0].explore() {
        Expansion::Solved(r) => {
            assert_eq!((r.index(), r.value()), (0, 0));
            let mut solved = Board::new();
            solved.restore(r.state());
            assert_eq!(solved.serialize(), SOLUTION);
        }
        _ => panic!("the branch solves the board"),
    }

    // a branch that dies: two open cells of one row that want one digit
    state[0] = (0, 0b1000);
    state[1] = (0, 0b1000);
    board.restore(&state);
    let branches = board.branches();
    assert_eq!(branches.len(), 1);
    assert!(matches!(branches[0].explore(), Expansion::Dead));

    // a branch that stays open
    let mut open = Board::new();
    open.fill_candidates();
    let branches = open.branches();
    assert_eq!(branches.len(), 9);
    match branches[4].explore() {
        Expansion::Open(children) => {
            assert_eq!(children.len(), 8);
            for (k, child) in children.iter().enumerate() {
                assert_eq!(child.index(), 1);
                let expected = [1u8, 2, 3, 4, 6, 7, 8, 9][k];
                assert_eq!(child.value(), expected);
                assert_eq!(child.state()[0], (5, 0));
            }
        }
        _ => panic!("the branch stays open"),
    }
}

#[test]
fn absorb_keeps_the_last_solution_and_drops_late_branches() {
    let mut board = Board::new();
    board.load_game(SOLUTION);
    let mut state = board.backup();
    state[0] = (0, 0b1000);
    board.restore(&state);
    let mut frontier = Frontier::new(&board);
    let task = frontier.next();
    let s = match task {
        Task::Explore(s) => s,
        _ => panic!("a branch waits"),
    };
    assert_eq!(frontier.len(), 0);
    frontier.absorb(Expansion::Dead);
    assert_eq!(frontier.len(), 0);
    assert!(!frontier.is_solved());
    frontier.absorb(s.explore());
    assert!(frontier.is_solved());
    assert_eq!(frontier.len(), 1);
    // branches that come late are dropped
    let mut open = Board::new();
    open.fill_candidates();
    frontier.absorb(Expansion::Open(open.branches()));
    assert_eq!(frontier.len(), 1);
    // a second solution takes the place of the first
    frontier.absorb(s.explore());
    assert_eq!(frontier.len(), 1);
    assert!(frontier.is_solved());
}

#[test]
fn next_waits_while_a_branch_is_out() {
    let mut board = Board::new();
    board.load_game(SOLUTION);
    let mut state = board.backup();
    state[0] = (0, 256);
    board.restore(&state);
    let mut frontier = Frontier::new(&board);
    assert_eq!(frontier.busy(), 0);
    let s = match frontier.next() {
        Task::Explore(s) => s,
        _ => panic!("a branch waits"),
    };
    assert_eq!(frontier.busy(), 1);
    // nothing waits, but the branch may still bring new ones
    assert!(matches!(frontier.next(), Task::Idle));
    assert_eq!(frontier.busy(), 1);
    frontier.absorb(s.explore());
    assert_eq!(frontier.busy(), 0);
    assert!(matches!(frontier.next(), Task::Finished));
    assert!(!frontier.is_solved());
}

#[test]
fn next_takes_the_branch_that_was_added_last() {
    let mut open = Board::new();
    open.fill_candidates();
    let mut frontier = Frontier::new(&open);
    assert_eq!(frontier.len(), 9);
    match frontier.next() {
        Task::Explore(s) => assert_eq!(s.value(), 9),
        _ => panic!("a branch waits"),
    }
    assert_eq!(frontier.len(), 8);
}

#[test]
fn is_solve_concurrent_works() {
    let mut b = Board::new();
    assert_eq!(b.init(PUZZLE), Ok(true));
    println!("{}", b.render());
    // the search of the pool, with the test as its only worker
    let mut frontier = Frontier::new(&b);
    run_alone(&mut frontier);
    let success = frontier.finish(&mut b);
    assert_eq!(success, true);
    println!("{}", b.render());
}

#[test]
fn solve_alone_finds_the_solution_of_solve() {
    let mut b = Board::new();
    assert_eq!(b.init(PUZZLE), Ok(true));
    assert!(b.solve_alone());
    assert!(b.is_solved());
    assert_eq!(b.serialize(), SOLUTION);
}

#[test]
fn solve_alone_fails_without_solution_and_keeps_the_board() {
    let mut b = Board::new();
    b.load_game(SOLUTION);
    let mut state = b.backup();
    state[0] = (0, 256);
    state[80] = (0, 0b110);
    b.restore(&state);
    assert!(!b.solve_alone());
    assert_eq!(b.backup(), state);
}

#[test]
fn solve_alone_on_a_solved_board_changes_nothing() {
    let mut b = Board::new();
    b.load_game(SOLUTION);
    assert!(b.solve_alone());
    assert_eq!(b.serialize(), SOLUTION);
}

#[test]
fn pool_has_a_worker() {
    assert!(pool_size() >= 1);
}

#[test]
fn solve_in_turns_agrees_with_solve_for_any_workers_and_turns() {
    let mut direct = Board::new();
    assert_eq!(direct.init(PUZZLE), Ok(true));
    assert!(direct.solve());
    assert_eq!(direct.serialize(), SOLUTION);

    let round_robin: Vec<usize> = (0..400).collect();
    let one_first: Vec<usize> = vec![0; 50];
    let by_chance: Vec<usize> = (0..300).map(|_| random::<u8>() as usize).collect();
    for workers in [1usize, 2, 3, 8] {
        for turns in [&vec![], &round_robin, &one_first, &by_chance] {
            let mut b = Board::new();
            assert_eq!(b.init(PUZZLE), Ok(true));
            assert!(b.solve_in_turns(workers, turns));
            assert_eq!(b.serialize(), direct.serialize());
        }
    }
}

#[test]
fn solve_in_turns_fails_without_solution_and_keeps_the_board() {
    let mut b = Board::new();
    b.load_game(SOLUTION);
    let mut state = b.backup();
    state[0] = (0, 256);
    state[80] = (0, 0b110);
    b.restore(&state);
    let turns: Vec<usize> = (0..20).map(|_| random::<u8>() as usize).collect();
    assert!(!b.solve_in_turns(4, &turns));
    assert_eq!(b.backup(), state);
}

#[test]
fn pool_turns_take_explore_and_stop() {
    let mut board = Board::new();
    board.load_game(SOLUTION);
    let mut state = board.backup();
    // cell 0 holds 4 in the solution
    state[0] = (0, 0b1000);
    board.restore(&state);
    let mut pool = Pool::new(&board, 2);
    assert_eq!(pool.workers(), 2);
    // no worker holds a branch: the first that runs is named
    assert_eq!(pool.next_worker(), Some(0));
    // worker 1 takes the one branch that waits
    pool.turn(1);
    assert_eq!(pool.next_worker(), Some(1));
    // worker 0 finds nothing waiting while the branch is out
    pool.turn(0);
    assert_eq!(pool.next_worker(), Some(1));
    // worker 1 hands back the solution
    pool.turn(1);
    assert_eq!(pool.next_worker(), Some(0));
    pool.turn(0);
    assert_eq!(pool.next_worker(), Some(1));
    pool.turn(1);
    assert_eq!(pool.next_worker(), None);
    // a worker that has stopped does nothing
    pool.turn(0);
    assert_eq!(pool.next_worker(), None);
    let mut result = Board::new();
    assert!(pool.finish(&mut result));
    assert_eq!(result.serialize(), SOLUTION);
}
