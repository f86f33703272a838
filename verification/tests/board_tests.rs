use slider_solver::board::encode_moves;
use slider_solver::Board;
use slider_solver::Move;

fn make_board(size: usize, cells: Vec<u8>) -> Board {
    Board { size, state: cells, m_list: Vec::new(), cost: 0, score: 0 }
}

fn goal4_cells() -> Vec<u8> {
    let mut v: Vec<u8> = (1..16).collect();
    v.push(0);
    v
}

fn sorted(mut v: Vec<u8>) -> Vec<u8> {
    v.sort();
    v
}

#[test]
fn invert_is_an_involution() {
    let all = [Move::Left, Move::Right, Move::Up, Move::Down, Move::Stay];
    for m in all {
        assert_eq!(m.invert().invert(), m);
    }
    assert_eq!(Move::Up.invert(), Move::Down);
    assert_eq!(Move::Down.invert(), Move::Up);
    assert_eq!(Move::Left.invert(), Move::Right);
    assert_eq!(Move::Right.invert(), Move::Left);
    assert_eq!(Move::Stay.invert(), Move::Stay);
}

#[test]
fn equality_ignores_path_cost_and_score() {
    let a = Board {
        size: 4,
        state: goal4_cells(),
        m_list: vec![Move::Up, Move::Left],
        cost: 2,
        score: 77,
    };
    let b = Board { size: 4, state: goal4_cells(), m_list: Vec::new(), cost: 0, score: -5 };
    assert!(a == b);
    let mut other = goal4_cells();
    other.swap(0, 1);
    let c = Board { size: 4, state: other, m_list: vec![Move::Up, Move::Left], cost: 2, score: 77 };
    assert!(a != c);
}

#[test]
fn solvability_of_known_configurations() {
    let known = make_board(4, vec![11, 15, 3, 12, 2, 8, 10, 1, 4, 6, 5, 14, 13, 7, 9, 0]);
    assert!(known.is_solvable());
    let near_goal = make_board(4, vec![1, 2, 3, 4, 5, 6, 7, 8, 9, 10, 11, 12, 13, 14, 0, 15]);
    assert!(near_goal.is_solvable());
    let goal = make_board(4, goal4_cells());
    assert!(goal.is_solvable());
    let mut swapped = goal4_cells();
    swapped.swap(0, 1);
    assert!(!make_board(4, swapped).is_solvable());
}

#[test]
fn solvability_of_odd_side_length() {
    let goal3 = make_board(3, vec![1, 2, 3, 4, 5, 6, 7, 8, 0]);
    assert!(goal3.is_solvable());
    let swapped3 = make_board(3, vec![2, 1, 3, 4, 5, 6, 7, 8, 0]);
    assert!(!swapped3.is_solvable());
}

#[test]
fn legal_moves_never_change_solvability() {
    let known = make_board(4, vec![11, 15, 3, 12, 2, 8, 10, 1, 4, 6, 5, 14, 13, 7, 9, 0]);
    let h = slider_solver::Heuristic::new(known.clone());
    for child in known.expand(&h) {
        assert_eq!(child.is_solvable(), known.is_solvable());
        let hc = slider_solver::Heuristic::new(child.clone());
        for grandchild in child.expand(&hc) {
            assert_eq!(grandchild.is_solvable(), known.is_solvable());
        }
    }
}

#[test]
fn expansion_from_a_corner() {
    // blank in the bottom-right corner: only Up and Left are open
    let goal = make_board(4, goal4_cells());
    let h = slider_solver::Heuristic::new(goal.clone());
    let children = goal.expand(&h);
    assert_eq!(children.len(), 2);
    assert_eq!(children[0].m_list, vec![Move::Up]);
    assert_eq!(children[1].m_list, vec![Move::Left]);
    // Up: the blank (index 15) swaps with index 11
    assert_eq!(children[0].state[15], 12);
    assert_eq!(children[0].state[11], 0);
    // Left: the blank swaps with index 14
    assert_eq!(children[1].state[15], 15);
    assert_eq!(children[1].state[14], 0);
    for child in &children {
        assert_eq!(child.cost, 1);
        assert_eq!(sorted(child.state.clone()), sorted(goal.state.clone()));
    }
}

#[test]
fn expansion_from_the_middle() {
    // blank at index 5 (row 1, column 1): all four directions are open
    let mut cells = goal4_cells();
    let pos = cells.iter().position(|&c| c == 0).unwrap();
    cells.swap(pos, 5);
    let board = make_board(4, cells);
    let h = slider_solver::Heuristic::new(board.clone());
    let children = board.expand(&h);
    assert_eq!(children.len(), 4);
    let blanks: Vec<usize> = children
        .iter()
        .map(|c| c.state.iter().position(|&v| v == 0).unwrap())
        .collect();
    // fixed order Up, Down, Left, Right
    assert_eq!(blanks, vec![1, 9, 4, 6]);
    for child in &children {
        assert_eq!(sorted(child.state.clone()), sorted(board.state.clone()));
    }
}

#[test]
fn moves_respect_the_boundary() {
    let goal = make_board(4, goal4_cells());
    assert!(Board::move_right(&goal).is_none());
    assert!(Board::move_down(&goal).is_none());
    assert!(Board::move_up(&goal).is_some());
    assert!(Board::move_left(&goal).is_some());
    let up = Board::move_up(&goal).unwrap();
    assert_eq!(up.m_list, vec![Move::Up]);
    assert_eq!(up.cost, 1);
}

#[test]
fn get_index_of_finds_the_first_cell() {
    let goal = make_board(4, goal4_cells());
    assert_eq!(goal.get_index_of(&1), 0);
    assert_eq!(goal.get_index_of(&15), 14);
    assert_eq!(goal.get_index_of(&0), 15);
    assert_eq!(goal.get_index_of(&200), 16);
}

#[test]
fn generated_boards_are_always_solvable() {
    for _ in 0..8 {
        let b = Board::generate_board(4);
        assert_eq!(b.size, 4);
        assert!(b.m_list.is_empty());
        assert_eq!(b.cost, 0);
        assert!(b.is_solvable());
        let expected: Vec<u8> = (0..16).collect();
        assert_eq!(sorted(b.state.clone()), expected);
    }
}

#[test]
fn generated_boards_of_other_sizes() {
    let b = Board::generate_board(3);
    assert_eq!(b.size, 3);
    assert!(b.is_solvable());
    let expected: Vec<u8> = (0..9).collect();
    assert_eq!(sorted(b.state), expected);
}

#[test]
fn boundary_encoding_drops_the_placeholder() {
    let all = vec![Move::Up, Move::Down, Move::Left, Move::Right];
    assert_eq!(encode_moves(&all), vec![0, 1, 2, 3]);
    let with_placeholder = vec![Move::Stay, Move::Right, Move::Stay, Move::Up];
    assert_eq!(encode_moves(&with_placeholder), vec![3, 0]);
    assert_eq!(encode_moves(&Vec::new()), Vec::<u8>::new());
}

#[test]
fn check_valid_accepts_only_permutations() {
    assert!(make_board(4, goal4_cells()).check_valid());
    // a duplicated label
    let mut dup = goal4_cells();
    dup[0] = 2;
    assert!(!make_board(4, dup).check_valid());
    // no blank
    let no_blank: Vec<u8> = (1..17).collect();
    assert!(!make_board(4, no_blank).check_valid());
    // a label out of range
    let mut big = goal4_cells();
    big[3] = 16;
    assert!(!make_board(4, big).check_valid());
    // the wrong cell count for the declared size
    assert!(!make_board(3, goal4_cells()).check_valid());
    // an unsupported side length
    assert!(!make_board(1, vec![0]).check_valid());
}
