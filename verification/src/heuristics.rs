//! Heuristic scoring: the priority of a board combines a positional
//! distance from the evaluator's root configuration with the Manhattan
//! distance toward the canonical solved layout.

use vstd::prelude::*;
use crate::board::Board;

verus! {

/// The absolute difference of two integers.
pub open spec fn absdiff(a: int, b: int) -> int {
    if a >= b {
        a - b
    } else {
        b - a
    }
}

/// The Manhattan distance between two flat cell indices on a board of the
/// given side length: row distance plus column distance.
pub open spec fn manhattan_between(a: int, b: int, size: int) -> int {
    absdiff(a / size, b / size) + absdiff(a % size, b % size)
}

/// The cell a tile belongs to in the canonical solved layout: tile `v`
/// rests at cell `v - 1`.
pub open spec fn goal_cell(v: u8) -> int {
    v - 1
}

/// The index of the first cell of `s` holding `v`, or `s.len()` when no
/// cell does.
pub open spec fn find_first(s: Seq<u8>, v: u8) -> int
    decreases s.len(),
{
    if s.len() == 0 {
        0
    } else if s[0] == v {
        0
    } else {
        1 + find_first(s.drop_first(), v)
    }
}

/// `find_first` is pinned down by its first-occurrence characterisation.
pub proof fn lemma_find_first_is(s: Seq<u8>, v: u8, i: int)
    requires
        0 <= i <= s.len(),
        forall|k: int| 0 <= k < i ==> s[k] != v,
        i == s.len() || s[i] == v,
    ensures
        find_first(s, v) == i,
    decreases s.len(),
{
    if s.len() == 0 {
    } else if s[0] == v {
        assert(i == 0);
    } else {
        assert(i >= 1);
        lemma_find_first_is(s.drop_first(), v, i - 1);
    }
}

/// The summed Manhattan distance of every non-blank tile from `i` on
/// toward its slot in the canonical solved layout; the blank contributes
/// nothing.
pub open spec fn h_sum(s: Seq<u8>, size: int, i: int) -> int
    decreases s.len() - i,
{
    if i < 0 || i >= s.len() {
        0
    } else {
        (if s[i] == 0 {
            0int
        } else {
            manhattan_between(i, goal_cell(s[i]), size)
        }) + h_sum(s, size, i + 1)
    }
}

/// The summed Manhattan distance of every cell from `i` on between its
/// place in `s` and the place the same tile occupies in `root`.
pub open spec fn g_sum(root: Seq<u8>, s: Seq<u8>, size: int, i: int) -> int
    decreases s.len() - i,
{
    if i < 0 || i >= s.len() {
        0
    } else {
        manhattan_between(find_first(root, s[i]), i, size) + g_sum(root, s, size, i + 1)
    }
}

/// Scores boards for one search side. It owns a copy of that side's root
/// configuration and two weights; the priority of a board is
/// `gweight * (distance from the root) + hweight * (distance to the
/// solved layout)`, lower being better.
pub struct Heuristic {
    /// The root configuration of the search side this evaluator serves.
    pub start_board: Board,
    /// Weight on the positional distance from the root.
    pub gweight: i32,
    /// Weight on the Manhattan distance toward the solved layout.
    pub hweight: i32,
}

impl Heuristic {
    pub open spec fn wf(self) -> bool {
        &&& self.start_board.wf()
        &&& 0 <= self.gweight <= 1000
        &&& 0 <= self.hweight <= 1000
    }

    /// The exact priority this evaluator assigns to the configuration `s`.
    pub open spec fn score_spec(self, s: Seq<u8>) -> int {
        self.gweight * g_sum(self.start_board.state@, s, self.start_board.size as int, 0)
            + self.hweight * h_sum(s, self.start_board.size as int, 0)
    }

    /// An evaluator rooted at `start_board` with the default weights.
    pub fn new(start_board: Board) -> (r: Heuristic)
        requires
            start_board.wf(),
        ensures
            r.wf(),
            r.start_board == start_board,
            r.gweight == 11,
            r.hweight == 3,
    {
        Heuristic { start_board, gweight: 11, hweight: 3 }
    }

    /// An evaluator with caller-chosen weights; the defaults of `new` are
    /// a tuning, not a law.
    pub fn with_weights(start_board: Board, gweight: i32, hweight: i32) -> (r: Heuristic)
        requires
            start_board.wf(),
            0 <= gweight <= 1000,
            0 <= hweight <= 1000,
        ensures
            r.wf(),
            r.start_board == start_board,
            r.gweight == gweight,
            r.hweight == hweight,
    {
        Heuristic { start_board, gweight, hweight }
    }

    /// The priority of `current_board` under this evaluator.
    pub fn calculate_move_cost(&self, current_board: &Board) -> (r: i32)
        requires
            self.wf(),
            current_board.wf(),
            current_board.size == self.start_board.size,
        ensures
            r == self.score_spec(current_board.state@),
            0 <= r,
    {
        let hval = calculate_manhattan_dist(current_board);
        let gval = calculate_g_val(&self.start_board, current_board);
        proof {
            assert(self.gweight * gval <= 1000 * 8192 && 0 <= self.gweight * gval)
                by (nonlinear_arith)
                requires
                    0 <= self.gweight <= 1000,
                    0 <= gval <= 8192,
            ;
            assert(self.hweight * hval <= 1000 * 8192 && 0 <= self.hweight * hval)
                by (nonlinear_arith)
                requires
                    0 <= self.hweight <= 1000,
                    0 <= hval <= 8192,
            ;
        }
        self.gweight * gval + self.hweight * hval
    }
}

/// The Manhattan distance between the flat indices `index` and `value` on
/// a board of side length `size`.
fn calculate_manhattan_dist_tile(index: usize, value: usize, size: usize) -> (r: usize)
    requires
        2 <= size <= 16,
        index <= size * size,
        value <= size * size,
    ensures
        r == manhattan_between(index as int, value as int, size as int),
        r <= 2 * size,
{
    proof {
        vstd::arithmetic::div_mod::lemma_mod_division_less_than_divisor(index as int, size as int);
        vstd::arithmetic::div_mod::lemma_mod_division_less_than_divisor(value as int, size as int);
        vstd::arithmetic::div_mod::lemma_div_pos_is_pos(index as int, size as int);
        vstd::arithmetic::div_mod::lemma_div_pos_is_pos(value as int, size as int);
        assert((index as int) / (size as int) <= size && (value as int) / (size as int) <= size)
            by (nonlinear_arith)
            requires
                2 <= size,
                0 <= index as int <= (size as int) * (size as int),
                0 <= value as int <= (size as int) * (size as int),
        ;
    }
    let current_row = index / size;
    let current_col = index % size;
    let goal_row = value / size;
    let goal_col = value % size;
    let row_diff = if goal_row >= current_row {
        goal_row - current_row
    } else {
        current_row - goal_row
    };
    let col_diff = if goal_col >= current_col {
        goal_col - current_col
    } else {
        current_col - goal_col
    };
    row_diff + col_diff
}

/// The summed Manhattan distance of `board`'s non-blank tiles toward
/// their slots in the canonical solved layout.
fn calculate_manhattan_dist(board: &Board) -> (r: i32)
    requires
        board.wf(),
    ensures
        r == h_sum(board.state@, board.size as int, 0),
        0 <= r <= 8192,
{
    let n = board.state.len();
    proof {
        assert(n <= 256) by (nonlinear_arith)
            requires
                n == (board.size as int) * (board.size as int),
                2 <= board.size <= 16,
        ;
    }
    let mut distance: i32 = 0;
    let mut index: usize = 0;
    while index < n
        invariant
            board.wf(),
            n == board.state@.len(),
            n <= 256,
            index <= n,
            distance == h_sum(board.state@, board.size as int, 0) - h_sum(
                board.state@,
                board.size as int,
                index as int,
            ),
            0 <= distance <= 32 * index,
        decreases n - index,
    {
        let tile = board.state[index];
        proof {
            assert(h_sum(board.state@, board.size as int, index as int) == (if board.state@[
            index as int] == 0 {
                0int
            } else {
                manhattan_between(index as int, goal_cell(board.state@[index as int]), board.size as int)
            }) + h_sum(board.state@, board.size as int, index as int + 1));
        }
        if tile != 0 {
            let goal: usize = (tile - 1) as usize;
            proof {
                assert(goal as int == goal_cell(board.state@[index as int]));
            }
            let term = calculate_manhattan_dist_tile(index, goal, board.size);
            distance = distance + (term as i32);
        }
        index += 1;
    }
    proof {
        assert(h_sum(board.state@, board.size as int, n as int) == 0);
    }
    distance
}

/// The summed positional distance of `current_board` from `start_board`:
/// for each cell, how far its tile sits from where the same tile sits in
/// the start board.
fn calculate_g_val(start_board: &Board, current_board: &Board) -> (r: i32)
    requires
        start_board.wf(),
        current_board.wf(),
        current_board.size == start_board.size,
    ensures
        r == g_sum(
            start_board.state@,
            current_board.state@,
            start_board.size as int,
            0,
        ),
        0 <= r <= 8192,
{
    let n = current_board.state.len();
    proof {
        assert(n <= 256) by (nonlinear_arith)
            requires
                n == (start_board.size as int) * (start_board.size as int),
                2 <= start_board.size <= 16,
        ;
    }
    let mut distance: i32 = 0;
    let mut index: usize = 0;
    while index < n
        invariant
            start_board.wf(),
            current_board.wf(),
            current_board.size == start_board.size,
            n == current_board.state@.len(),
            n <= 256,
            index <= n,
            distance == g_sum(
                start_board.state@,
                current_board.state@,
                start_board.size as int,
                0,
            ) - g_sum(
                start_board.state@,
                current_board.state@,
                start_board.size as int,
                index as int,
            ),
            0 <= distance <= 32 * index,
        decreases n - index,
    {
        let tile = current_board.state[index];
        let start_index = start_board.get_index_of(&tile);
        proof {
            lemma_find_first_is(start_board.state@, tile, start_index as int);
            assert(g_sum(
                start_board.state@,
                current_board.state@,
                start_board.size as int,
                index as int,
            ) == manhattan_between(
                find_first(start_board.state@, tile),
                index as int,
                start_board.size as int,
            ) + g_sum(
                start_board.state@,
                current_board.state@,
                start_board.size as int,
                index as int + 1,
            ));
        }
        let term = calculate_manhattan_dist_tile(start_index, index, start_board.size);
        distance = distance + (term as i32);
        index += 1;
    }
    proof {
        assert(g_sum(start_board.state@, current_board.state@, start_board.size as int, n as int)
            == 0);
    }
    distance
}

} // verus!
