use slider_solver::add_entry;
use slider_solver::bidirectional_solver;
use slider_solver::solve_with_budget;
use slider_solver::check_for_solution;
use slider_solver::perform_move;
use slider_solver::Board;
use slider_solver::BoardStore;
use slider_solver::Heuristic;
use slider_solver::Move;

fn make_board(size: usize, cells: Vec<u8>) -> Board {
    Board { size, state: cells, m_list: Vec::new(), cost: 0, score: 0 }
}

fn goal4() -> Board {
    let mut v: Vec<u8> = (1..16).collect();
    v.push(0);
    make_board(4, v)
}

fn goal3() -> Board {
    make_board(3, vec![1, 2, 3, 4, 5, 6, 7, 8, 0])
}

/// Replays one move on a board, panicking if it is not legal.
fn step(board: &Board, m: Move) -> Board {
    match m {
        Move::Up => Board::move_up(board).unwrap(),
        Move::Down => Board::move_down(board).unwrap(),
        Move::Left => Board::move_left(board).unwrap(),
        Move::Right => Board::move_right(board).unwrap(),
        Move::Stay => board.clone(),
    }
}

fn replay(start: &Board, moves: &[Move]) -> Board {
    let mut cur = start.clone();
    for &m in moves {
        cur = step(&cur, m);
    }
    cur
}

#[test]
fn equal_start_and_goal_solve_to_the_empty_sequence() {
    let solution = bidirectional_solver(&goal4(), &goal4()).unwrap();
    assert!(solution.is_empty());
}

#[test]
fn one_swap_from_the_goal_solves_in_one_move() {
    // the blank lifted to the cell straight above its corner: one Down
    let mut cells: Vec<u8> = (1..16).collect();
    cells.push(0);
    cells.swap(11, 15);
    let start = make_board(4, cells);
    let solution = bidirectional_solver(&start, &goal4()).unwrap();
    assert_eq!(solution, vec![Move::Down]);
}

#[test]
fn near_goal_row_solves_and_replays_to_the_goal() {
    let start = make_board(4, vec![1, 2, 3, 4, 5, 6, 7, 8, 9, 10, 11, 12, 13, 14, 0, 15]);
    assert!(start.is_solvable());
    let solution = bidirectional_solver(&start, &goal4()).unwrap();
    assert!(!solution.is_empty());
    // one legal swap short of the goal: the single corresponding move
    assert_eq!(solution, vec![Move::Right]);
    let end = replay(&start, &solution);
    assert!(end == goal4());
}

#[test]
fn the_step_budget_bounds_the_search() {
    let start = make_board(4, vec![1, 2, 3, 4, 5, 6, 7, 8, 9, 10, 11, 12, 13, 14, 0, 15]);
    // a zero budget is exhausted at once
    let (empty_handed, steps) = solve_with_budget(&start, &goal4(), 0);
    assert!(empty_handed.is_none());
    assert_eq!(steps, 0);
    // a generous budget finds the meeting and reports the steps spent
    let (found, spent) = solve_with_budget(&start, &goal4(), 1000);
    let moves = found.unwrap();
    assert!(spent <= 1000);
    assert!(replay(&start, &moves) == goal4());
    // equal boards need no step at all
    let (trivial, none_spent) = solve_with_budget(&goal4(), &goal4(), 5);
    assert!(trivial.unwrap().is_empty());
    assert_eq!(none_spent, 0);
}

#[test]
fn solving_a_scramble_replays_to_the_goal() {
    // scramble the goal by a handful of legal moves, then solve back
    let scrambled = replay(&goal4(), &[Move::Up, Move::Up, Move::Left, Move::Down, Move::Left]);
    let start = make_board(4, scrambled.state.clone());
    assert!(start.is_solvable());
    let solution = bidirectional_solver(&start, &goal4()).unwrap();
    let end = replay(&start, &solution);
    assert!(end == goal4());
}

#[test]
fn solving_a_three_by_three_scramble() {
    let scrambled = replay(&goal3(), &[Move::Up, Move::Left, Move::Up, Move::Right]);
    let start = make_board(3, scrambled.state.clone());
    assert!(start.is_solvable());
    let solution = bidirectional_solver(&start, &goal3()).unwrap();
    let end = replay(&start, &solution);
    assert!(end == goal3());
}

#[test]
fn store_drops_configuration_duplicates_silently() {
    let mut store = BoardStore::new();
    let mut first = goal4();
    first.score = 5;
    let mut second = goal4();
    second.score = 5;
    second.m_list = vec![Move::Up, Move::Down];
    add_entry(first, &mut store);
    add_entry(second, &mut store);
    let popped = store.pop_min().unwrap();
    assert_eq!(popped.score, 5);
    // the duplicate was dropped, and the resident entry was not replaced
    assert!(popped.m_list.is_empty());
    assert!(store.pop_min().is_none());
}

#[test]
fn store_extracts_the_lowest_priority_first() {
    let mut store = BoardStore::new();
    let mut high = goal4();
    high.score = 7;
    let mut low = make_board(4, vec![1, 2, 3, 4, 5, 6, 7, 8, 9, 10, 11, 12, 13, 14, 0, 15]);
    low.score = 3;
    add_entry(high, &mut store);
    add_entry(low, &mut store);
    assert_eq!(store.pop_min().unwrap().score, 3);
    assert_eq!(store.pop_min().unwrap().score, 7);
    assert!(store.pop_min().is_none());
}

#[test]
fn store_membership_is_keyed_by_priority() {
    let mut store = BoardStore::new();
    let mut resident = goal4();
    resident.score = 4;
    add_entry(resident, &mut store);
    let mut same_cells_same_score = goal4();
    same_cells_same_score.score = 4;
    assert!(store.contains(&same_cells_same_score));
    // the same configuration under another score is invisible to lookup
    let mut same_cells_other_score = goal4();
    same_cells_other_score.score = 9;
    assert!(!store.contains(&same_cells_other_score));
}

#[test]
fn meeting_check_finds_a_configuration_across_scores() {
    let mut frontier = BoardStore::new();
    let explored = BoardStore::new();
    let mut resident = goal4();
    resident.score = 42;
    resident.m_list = vec![Move::Left];
    add_entry(resident, &mut frontier);
    // the fresh board carries a different score: the meeting must still be seen
    let mut fresh = goal4();
    fresh.score = 7;
    fresh.m_list = vec![Move::Up];
    let found = check_for_solution(&vec![fresh], &frontier, &explored);
    let (a, b) = found.unwrap();
    assert_eq!(a, vec![Move::Up]);
    assert_eq!(b, vec![Move::Left]);

    let mut other = make_board(4, vec![1, 2, 3, 4, 5, 6, 7, 8, 9, 10, 11, 12, 13, 14, 0, 15]);
    other.score = 7;
    assert!(check_for_solution(&vec![other], &frontier, &explored).is_none());
}

#[test]
fn perform_move_explores_and_refills_the_frontier() {
    let start = make_board(4, vec![1, 2, 3, 4, 5, 6, 7, 8, 9, 10, 11, 12, 13, 14, 0, 15]);
    let h = Heuristic::new(start.clone());
    let mut frontier = BoardStore::new();
    let mut explored = BoardStore::new();
    add_entry(start.clone(), &mut frontier);
    let children = perform_move(&mut frontier, &mut explored, &h);
    // the blank sits at row 3, column 2: Up, Left and Right are open
    assert_eq!(children.len(), 3);
    for child in &children {
        assert_eq!(child.cost, 1);
        assert_eq!(child.m_list.len(), 1);
    }
    // the expanded board went to the explored store
    assert!(explored.contains(&start));
    // an empty frontier performs no work
    let mut empty = BoardStore::new();
    let none = perform_move(&mut empty, &mut explored, &h);
    assert!(none.is_empty());
}

#[test]
fn heuristic_scores_match_the_formula() {
    let goal = goal4();
    let h = Heuristic::new(goal.clone());
    assert_eq!(h.calculate_move_cost(&goal), 0);
    // one swap from the goal: the root-distance term counts the blank's
    // displacement and the misplaced tile (2), the goal-distance term
    // counts only the misplaced tile (1)
    let near = make_board(4, vec![1, 2, 3, 4, 5, 6, 7, 8, 9, 10, 11, 12, 13, 14, 0, 15]);
    assert_eq!(h.calculate_move_cost(&near), 11 * 2 + 3 * 1);
    let unit = Heuristic::with_weights(goal.clone(), 1, 1);
    assert_eq!(unit.calculate_move_cost(&near), 3);
}

#[test]
fn solver_handles_a_deeper_known_board() {
    let start = make_board(4, vec![2, 1, 3, 4, 5, 6, 7, 8, 9, 10, 11, 12, 13, 14, 15, 0]);
    // two tiles exchanged outright: the wrong parity class
    assert!(!start.is_solvable());
    let shuffled = replay(&goal4(), &[
        Move::Left,
        Move::Up,
        Move::Right,
        Move::Up,
        Move::Left,
        Move::Left,
        Move::Down,
    ]);
    let deep = make_board(4, shuffled.state.clone());
    assert!(deep.is_solvable());
    let solution = bidirectional_solver(&deep, &goal4()).unwrap();
    let end = replay(&deep, &solution);
    assert!(end == goal4());
}
