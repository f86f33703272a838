//! The puzzle board: one configuration of tiles, the move path that reached
//! it, and its search cost and heuristic score, together with the
//! mathematical model of configurations and moves that the contracts of the
//! whole crate are stated over.

use vstd::prelude::*;

verus! {

use vstd::std_specs::cmp::PartialEqSpec;
use vstd::pervasive::VecAdditionalExecFns;
use crate::heuristics::Heuristic;
use vstd::arithmetic::div_mod::lemma_fundamental_div_mod;
use vstd::arithmetic::div_mod::lemma_fundamental_div_mod_converse;
use vstd::arithmetic::div_mod::lemma_mod_division_less_than_divisor;
use vstd::arithmetic::div_mod::lemma_div_pos_is_pos;
use vstd::arithmetic::div_mod::lemma_multiply_divide_lt;

broadcast use vstd::seq_lib::group_to_multiset_ensures, vstd::multiset::group_multiset_axioms;

/// A move names the direction the blank square slides. `Move::Stay` is a
/// placeholder with no search meaning; it acts as the identity move.
#[derive(Copy, Clone, Debug, PartialEq, Eq, Structural)]
pub enum Move {
    Left,
    Right,
    Up,
    Down,
    Stay,
}

impl Move {
    /// The move that undoes this one: `Up` and `Down` swap, `Left` and
    /// `Right` swap, and the placeholder maps to itself.
    pub open spec fn inverse(self) -> Move {
        match self {
            Move::Left => Move::Right,
            Move::Right => Move::Left,
            Move::Up => Move::Down,
            Move::Down => Move::Up,
            Move::Stay => Move::Stay,
        }
    }

    pub fn invert(self) -> (r: Move)
        ensures
            r == self.inverse(),
    {
        match self {
            Move::Left => Move::Right,
            Move::Right => Move::Left,
            Move::Up => Move::Down,
            Move::Down => Move::Up,
            Move::Stay => Move::Stay,
        }
    }
}

/// Inverting a move twice yields the original move, for every move
/// including the placeholder.
pub proof fn lemma_invert_involution(m: Move)
    ensures
        m.inverse().inverse() == m,
{
}

/// Whether a move sequence holds directional moves only, never the
/// placeholder.
pub open spec fn all_directional(p: Seq<Move>) -> bool {
    forall|i: int| 0 <= i < p.len() ==> (#[trigger] p[i]) != Move::Stay
}

/// The flat boundary code of a directional move: 0 up, 1 down, 2 left,
/// 3 right. The placeholder has no code and is never emitted.
pub open spec fn move_code(m: Move) -> u8 {
    match m {
        Move::Up => 0,
        Move::Down => 1,
        Move::Left => 2,
        Move::Right => 3,
        Move::Stay => 0,
    }
}

/// The byte encoding of a move sequence at the boundary: one code per
/// directional move, in order, with every placeholder dropped.
pub open spec fn encode_path(p: Seq<Move>) -> Seq<u8>
    decreases p.len(),
{
    if p.len() == 0 {
        Seq::<u8>::empty()
    } else if p.last() == Move::Stay {
        encode_path(p.drop_last())
    } else {
        encode_path(p.drop_last()).push(move_code(p.last()))
    }
}

/// Encodes a move sequence for the flat boundary exactly as
/// `encode_path` describes it.
pub fn encode_moves(moves: &Vec<Move>) -> (r: Vec<u8>)
    ensures
        r@ == encode_path(moves@),
{
    let n = moves.len();
    let mut r: Vec<u8> = Vec::new();
    let mut i: usize = 0;
    while i < n
        invariant
            i <= n,
            n == moves@.len(),
            r@ == encode_path(moves@.take(i as int)),
        decreases n - i,
    {
        proof {
            assert(moves@.take(i as int + 1).drop_last() =~= moves@.take(i as int));
            assert(moves@.take(i as int + 1).last() == moves@[i as int]);
        }
        match moves[i] {
            Move::Up => r.push(0),
            Move::Down => r.push(1),
            Move::Left => r.push(2),
            Move::Right => r.push(3),
            Move::Stay => (),
        }
        i += 1;
    }
    proof {
        assert(moves@.take(n as int) =~= moves@);
    }
    r
}

/// A well-formed flat configuration: `size * size` cells, each tile label
/// below `size * size`, no label twice, and the blank label `0` present.
pub open spec fn wf_cells(s: Seq<u8>, size: int) -> bool {
    &&& 2 <= size <= 16
    &&& s.len() == size * size
    &&& forall|i: int| 0 <= i < s.len() ==> (#[trigger] s[i] as int) < size * size
    &&& forall|i: int, j: int| 0 <= i < j < s.len() ==> s[i] != s[j]
    &&& exists|i: int| 0 <= i < s.len() && s[i] == 0
}

/// The index of the blank cell; unique on a well-formed configuration.
pub open spec fn blank_of(s: Seq<u8>) -> int {
    choose|i: int| 0 <= i < s.len() && s[i] == 0
}

pub proof fn lemma_blank_at(s: Seq<u8>)
    requires
        forall|i: int, j: int| 0 <= i < j < s.len() ==> s[i] != s[j],
        exists|i: int| 0 <= i < s.len() && s[i] == 0,
    ensures
        0 <= blank_of(s) < s.len(),
        s[blank_of(s)] == 0,
        forall|k: int| 0 <= k < s.len() && s[k] == 0 ==> k == blank_of(s),
{
    let b = blank_of(s);
    assert(0 <= b < s.len() && s[b] == 0);
    assert forall|k: int| 0 <= k < s.len() && s[k] == 0 implies k == b by {
        if k < b {
            assert(s[k] != s[b]);
        } else if b < k {
            assert(s[b] != s[k]);
        }
    }
}

/// How far the blank's index shifts when a move is applied.
pub open spec fn move_delta(m: Move, size: int) -> int {
    match m {
        Move::Left => -1,
        Move::Right => 1,
        Move::Up => -size,
        Move::Down => size,
        Move::Stay => 0,
    }
}

/// Whether the blank may slide in the given direction: not `Left` out of
/// the first column, not `Right` out of the last, not `Up` out of the
/// first row, not `Down` out of the last. The placeholder is always legal.
pub open spec fn move_legal(s: Seq<u8>, size: int, m: Move) -> bool {
    let b = blank_of(s);
    match m {
        Move::Left => b % size != 0,
        Move::Right => b % size != size - 1,
        Move::Up => b >= size,
        Move::Down => b / size != size - 1,
        Move::Stay => true,
    }
}

/// The configuration after the blank slides in the given direction: the
/// blank and its neighbour swap cells. The placeholder changes nothing.
pub open spec fn apply_move(s: Seq<u8>, size: int, m: Move) -> Seq<u8> {
    let b = blank_of(s);
    let t = b + move_delta(m, size);
    match m {
        Move::Stay => s,
        _ => s.update(b, s[t]).update(t, 0),
    }
}

/// Where a swap of the cells at `p` and `q` sends each index.
pub open spec fn swap_index(i: int, p: int, q: int) -> int {
    if i == p {
        q
    } else if i == q {
        p
    } else {
        i
    }
}

/// Decomposes an index of the flat sequence into its row and column.
pub proof fn lemma_grid(b: int, size: int)
    requires
        2 <= size,
        0 <= b < size * size,
    ensures
        b == size * (b / size) + b % size,
        0 <= b % size < size,
        0 <= b / size < size,
{
    lemma_fundamental_div_mod(b, size);
    lemma_mod_division_less_than_divisor(b, size);
    lemma_div_pos_is_pos(b, size);
    lemma_multiply_divide_lt(b, size, size);
}

/// Rebuilds an index from a row and a column inside the board.
pub proof fn lemma_row_col(r: int, c: int, size: int)
    requires
        2 <= size,
        0 <= r < size,
        0 <= c < size,
    ensures
        0 <= r * size + c < size * size,
        (r * size + c) / size == r,
        (r * size + c) % size == c,
{
    assert(0 <= r * size + c < size * size) by (nonlinear_arith)
        requires
            0 <= r < size,
            0 <= c < size,
    ;
    lemma_fundamental_div_mod_converse(r * size + c, size, r, c);
}

/// Swapping two cells keeps a configuration well formed and keeps the
/// multiset of its labels.
pub proof fn lemma_swap_wf(s: Seq<u8>, size: int, p: int, q: int)
    requires
        wf_cells(s, size),
        0 <= p < s.len(),
        0 <= q < s.len(),
        p != q,
    ensures
        ({
            let t = s.update(p, s[q]).update(q, s[p]);
            &&& wf_cells(t, size)
            &&& t.to_multiset() == s.to_multiset()
        }),
{
    let t = s.update(p, s[q]).update(q, s[p]);
    assert forall|i: int| 0 <= i < t.len() implies t[i] == s[swap_index(i, p, q)] by {}
    assert forall|i: int, j: int| 0 <= i < j < t.len() implies t[i] != t[j] by {
        let si = swap_index(i, p, q);
        let sj = swap_index(j, p, q);
        assert(si != sj);
        if si < sj {
            assert(s[si] != s[sj]);
        } else {
            assert(s[sj] != s[si]);
        }
    }
    lemma_blank_at(s);
    let b = blank_of(s);
    assert(t[swap_index(b, p, q)] == s[b]);
    assert(exists|i: int| 0 <= i < t.len() && t[i] == 0);
    let u = s.update(p, s[q]);
    assert(s.contains(s[p]));
    assert(u.to_multiset() == s.to_multiset().insert(s[q]).remove(s[p]));
    assert(u[q] == s[q]);
    assert(t.to_multiset() == u.to_multiset().insert(s[p]).remove(s[q]));
    assert(s.to_multiset().count(s[p]) > 0);
    assert(s.to_multiset().count(s[q]) > 0);
    assert(t.to_multiset() =~= s.to_multiset());
}

/// The full effect of one legal move: well-formedness and the label
/// multiset are kept, the blank lands exactly one step away, and the
/// inverse move is legal and leads straight back.
pub proof fn lemma_move_effect(s: Seq<u8>, size: int, m: Move)
    requires
        wf_cells(s, size),
        move_legal(s, size, m),
    ensures
        ({
            let t = apply_move(s, size, m);
            &&& t.len() == s.len()
            &&& wf_cells(t, size)
            &&& t.to_multiset() == s.to_multiset()
            &&& blank_of(t) == blank_of(s) + move_delta(m, size)
            &&& move_legal(t, size, m.inverse())
            &&& apply_move(t, size, m.inverse()) == s
        }),
{
    lemma_blank_at(s);
    let b = blank_of(s);
    let t = apply_move(s, size, m);
    if m == Move::Stay {
        assert(t == s);
    } else {
        let d = move_delta(m, size);
        let tgt = b + d;
        lemma_grid(b, size);
        let r = b / size;
        let c = b % size;
        assert(b == r * size + c) by (nonlinear_arith)
            requires
                b == size * r + c,
        ;
        match m {
            Move::Left => {
                assert(c >= 1);
                lemma_row_col(r, c - 1, size);
                assert(tgt == r * size + (c - 1));
                assert(tgt / size == r && tgt % size == c - 1);
            },
            Move::Right => {
                assert(c + 1 <= size - 1);
                lemma_row_col(r, c + 1, size);
                assert(tgt == r * size + (c + 1));
                assert(tgt / size == r && tgt % size == c + 1);
            },
            Move::Up => {
                assert(r >= 1) by (nonlinear_arith)
                    requires
                        b == r * size + c,
                        b >= size,
                        0 <= c < size,
                        0 <= r,
                        2 <= size,
                ;
                assert(tgt == (r - 1) * size + c) by (nonlinear_arith)
                    requires
                        b == r * size + c,
                        tgt == b - size,
                ;
                lemma_row_col(r - 1, c, size);
                assert(tgt / size == r - 1 && tgt % size == c);
            },
            Move::Down => {
                assert(r + 1 <= size - 1);
                assert(tgt == (r + 1) * size + c) by (nonlinear_arith)
                    requires
                        b == r * size + c,
                        tgt == b + size,
                ;
                lemma_row_col(r + 1, c, size);
                assert(tgt / size == r + 1 && tgt % size == c);
                assert(tgt >= size) by (nonlinear_arith)
                    requires
                        tgt == (r + 1) * size + c,
                        r >= 0,
                        c >= 0,
                        size >= 2,
                ;
            },
            Move::Stay => {},
        }
        assert(0 <= tgt < s.len());
        assert(tgt != b);
        assert(t == s.update(b, s[tgt]).update(tgt, 0));
        assert(s[b] == 0);
        lemma_swap_wf(s, size, b, tgt);
        assert(t == s.update(b, s[tgt]).update(tgt, s[b]));
        lemma_blank_at(t);
        assert(t[tgt] == 0);
        assert(blank_of(t) == tgt);
        // the way back: the inverse move is legal at `t` and undoes the swap
        assert(move_legal(t, size, m.inverse()));
        let back = apply_move(t, size, m.inverse());
        assert(back == t.update(tgt, t[b]).update(b, 0));
        assert(t[b] == s[tgt]);
        assert(back =~= s);
    }
}

/// Every move of the path is legal when replayed in order from `s`.
pub open spec fn path_ok(s: Seq<u8>, size: int, p: Seq<Move>) -> bool
    decreases p.len(),
{
    p.len() == 0 || (move_legal(s, size, p[0]) && path_ok(
        apply_move(s, size, p[0]),
        size,
        p.drop_first(),
    ))
}

/// The configuration reached by replaying the path in order from `s`.
pub open spec fn apply_moves(s: Seq<u8>, size: int, p: Seq<Move>) -> Seq<u8>
    decreases p.len(),
{
    if p.len() == 0 {
        s
    } else {
        apply_moves(apply_move(s, size, p[0]), size, p.drop_first())
    }
}

/// The path reversed with every move inverted: replayed from the end of
/// `p`, it walks back to where `p` began.
pub open spec fn invert_path(p: Seq<Move>) -> Seq<Move> {
    Seq::new(p.len(), |i: int| p[p.len() - 1 - i].inverse())
}

/// A legal path keeps the configuration well formed.
pub proof fn lemma_path_wf(s: Seq<u8>, size: int, p: Seq<Move>)
    requires
        wf_cells(s, size),
        path_ok(s, size, p),
    ensures
        wf_cells(apply_moves(s, size, p), size),
    decreases p.len(),
{
    if p.len() > 0 {
        lemma_move_effect(s, size, p[0]);
        lemma_path_wf(apply_move(s, size, p[0]), size, p.drop_first());
    }
}

/// Appending one legal move extends a legal path by one step.
pub proof fn lemma_path_snoc(s: Seq<u8>, size: int, p: Seq<Move>, m: Move)
    requires
        path_ok(s, size, p),
        move_legal(apply_moves(s, size, p), size, m),
    ensures
        path_ok(s, size, p.push(m)),
        apply_moves(s, size, p.push(m)) == apply_move(apply_moves(s, size, p), size, m),
    decreases p.len(),
{
    let q = p.push(m);
    if p.len() == 0 {
        assert(q[0] == m);
        assert(q.drop_first() =~= Seq::<Move>::empty());
        assert(apply_moves(s, size, p) == s);
        assert(path_ok(apply_move(s, size, m), size, Seq::<Move>::empty()));
        assert(apply_moves(apply_move(s, size, m), size, Seq::<Move>::empty()) == apply_move(
            s,
            size,
            m,
        ));
        assert(path_ok(s, size, q));
        assert(apply_moves(s, size, q) == apply_move(s, size, m));
    } else {
        assert(q[0] == p[0]);
        assert(q.drop_first() =~= p.drop_first().push(m));
        lemma_path_snoc(apply_move(s, size, p[0]), size, p.drop_first(), m);
        assert(path_ok(s, size, q));
        assert(apply_moves(s, size, q) == apply_move(apply_moves(s, size, p), size, m));
    }
}

/// Two legal paths replayed one after the other form one legal path.
pub proof fn lemma_path_concat(s: Seq<u8>, size: int, p: Seq<Move>, q: Seq<Move>)
    requires
        path_ok(s, size, p),
        path_ok(apply_moves(s, size, p), size, q),
    ensures
        path_ok(s, size, p + q),
        apply_moves(s, size, p + q) == apply_moves(apply_moves(s, size, p), size, q),
    decreases p.len(),
{
    if p.len() == 0 {
        assert(p + q =~= q);
    } else {
        assert((p + q)[0] == p[0]);
        assert((p + q).drop_first() =~= p.drop_first() + q);
        lemma_path_concat(apply_move(s, size, p[0]), size, p.drop_first(), q);
    }
}

/// Replaying a legal path and then its inverted reversal returns to the
/// starting configuration.
pub proof fn lemma_path_roundtrip(s: Seq<u8>, size: int, p: Seq<Move>)
    requires
        wf_cells(s, size),
        path_ok(s, size, p),
    ensures
        wf_cells(apply_moves(s, size, p), size),
        path_ok(apply_moves(s, size, p), size, invert_path(p)),
        apply_moves(apply_moves(s, size, p), size, invert_path(p)) == s,
    decreases p.len(),
{
    lemma_path_wf(s, size, p);
    if p.len() == 0 {
        assert(invert_path(p) =~= Seq::<Move>::empty());
    } else {
        let m = p[0];
        let rest = p.drop_first();
        let s1 = apply_move(s, size, m);
        lemma_move_effect(s, size, m);
        lemma_path_roundtrip(s1, size, rest);
        let e = apply_moves(s1, size, rest);
        assert(invert_path(p) =~= invert_path(rest).push(m.inverse()));
        assert(apply_moves(e, size, invert_path(rest)) == s1);
        lemma_path_snoc(e, size, invert_path(rest), m.inverse());
    }
}

/// One board configuration reached during search: the tile layout, the
/// moves taken from the search root, the move count, and the cached
/// heuristic score used for frontier ordering. Identity is the layout
/// alone; `m_list`, `cost` and `score` never enter equality.
pub struct Board {
    /// The side length of the square board.
    pub size: usize,
    /// The current layout, row-major; `0` is the blank.
    pub state: Vec<u8>,
    /// The moves taken from the root of this board's search side.
    pub m_list: Vec<Move>,
    /// Count of moves from the root, equal to the length of `m_list`.
    pub cost: i32,
    /// Heuristic score; meaningful only for ordering inside a store.
    pub score: i32,
}

impl Board {
    pub open spec fn wf(self) -> bool {
        wf_cells(self.state@, self.size as int)
    }
}

/// True exactly when the two vectors hold the same cell sequence.
pub fn same_cells(a: &Vec<u8>, b: &Vec<u8>) -> (r: bool)
    ensures
        r == (a@ == b@),
{
    if a.len() != b.len() {
        return false;
    }
    let n = a.len();
    let mut i: usize = 0;
    while i < n
        invariant
            i <= n,
            n == a@.len(),
            n == b@.len(),
            forall|k: int| 0 <= k < i ==> a@[k] == b@[k],
        decreases n - i,
    {
        if a[i] != b[i] {
            return false;
        }
        i += 1;
    }
    proof {
        assert(a@ =~= b@);
    }
    true
}

fn clone_cells(v: &Vec<u8>) -> (r: Vec<u8>)
    ensures
        r@ == v@,
{
    let n = v.len();
    let mut r: Vec<u8> = Vec::new();
    let mut i: usize = 0;
    while i < n
        invariant
            i <= n,
            n == v@.len(),
            r@ == v@.take(i as int),
        decreases n - i,
    {
        r.push(v[i]);
        proof {
            assert(r@ =~= v@.take(i as int + 1));
        }
        i += 1;
    }
    proof {
        assert(v@.take(n as int) =~= v@);
    }
    r
}

pub fn copy_moves(v: &Vec<Move>) -> (r: Vec<Move>)
    ensures
        r@ == v@,
{
    let n = v.len();
    let mut r: Vec<Move> = Vec::new();
    let mut i: usize = 0;
    while i < n
        invariant
            i <= n,
            n == v@.len(),
            r@ == v@.take(i as int),
        decreases n - i,
    {
        r.push(v[i]);
        proof {
            assert(r@ =~= v@.take(i as int + 1));
        }
        i += 1;
    }
    proof {
        assert(v@.take(n as int) =~= v@);
    }
    r
}

impl PartialEq for Board {
    /// Two boards are equal exactly when their layouts are equal: the path,
    /// cost and score play no part in identity.
    fn eq(&self, other: &Self) -> (r: bool) {
        same_cells(&self.state, &other.state)
    }
}

impl Eq for Board {

}

impl vstd::std_specs::cmp::PartialEqSpecImpl for Board {
    open spec fn obeys_eq_spec() -> bool {
        true
    }

    open spec fn eq_spec(&self, other: &Board) -> bool {
        self.state@ == other.state@
    }
}

/// Two boards built by different move sequences compare equal as soon as
/// their layouts agree: equality ignores `m_list`, `cost` and `score`.
pub proof fn lemma_eq_ignores_path(a: Board, b: Board)
    requires
        a.state@ == b.state@,
    ensures
        a.eq_spec(&b),
        b.eq_spec(&a),
{
}

impl Clone for Board {
    fn clone(&self) -> (r: Board)
        ensures
            r.size == self.size,
            r.state@ == self.state@,
            r.m_list@ == self.m_list@,
            r.cost == self.cost,
            r.score == self.score,
    {
        Board {
            size: self.size,
            state: clone_cells(&self.state),
            m_list: copy_moves(&self.m_list),
            cost: self.cost,
            score: self.score,
        }
    }
}

/// Whether an ordered pair of labels is an inversion: both non-blank and
/// out of ascending order.
pub open spec fn inv_pair(a: u8, b: u8) -> int {
    if a != 0 && b != 0 && a > b {
        1int
    } else {
        0int
    }
}

/// Inversions of the cell at `i` against the cells from `j` on: pairs of
/// non-blank tiles whose labels sit out of ascending order.
pub open spec fn inv_with(s: Seq<u8>, i: int, j: int) -> int
    decreases s.len() - j,
{
    if j < 0 || j >= s.len() {
        0
    } else {
        inv_pair(s[i], s[j]) + inv_with(s, i, j + 1)
    }
}

/// Inversions among the cells from `i` on.
pub open spec fn inv_from(s: Seq<u8>, i: int) -> int
    decreases s.len() - i,
{
    if i < 0 || i >= s.len() {
        0
    } else {
        inv_with(s, i, i + 1) + inv_from(s, i + 1)
    }
}

/// The inversion count of a configuration: over all pairs of non-blank
/// tiles in row-major order, how many have the earlier label greater.
pub open spec fn inversions(s: Seq<u8>) -> int {
    inv_from(s, 0)
}

/// The zero-based row of the blank cell.
pub open spec fn blank_row(s: Seq<u8>, size: int) -> int {
    blank_of(s) / size
}

/// The closed-form reachability test of the sliding-tile family: for an
/// odd side length the configuration is solvable exactly when the
/// inversion count is even; for an even side length exactly when the
/// inversion count plus the blank's row index is odd.
pub open spec fn solvable(s: Seq<u8>, size: int) -> bool {
    if size % 2 == 1 {
        inversions(s) % 2 == 0
    } else {
        (inversions(s) + blank_row(s, size)) % 2 == 1
    }
}

pub proof fn lemma_inv_with_bounds(s: Seq<u8>, i: int, j: int)
    requires
        0 <= j <= s.len(),
    ensures
        0 <= inv_with(s, i, j) <= s.len() - j,
    decreases s.len() - j,
{
    if j < s.len() {
        lemma_inv_with_bounds(s, i, j + 1);
    }
}

pub proof fn lemma_inv_from_bounds(s: Seq<u8>, i: int)
    requires
        0 <= i <= s.len(),
    ensures
        0 <= inv_from(s, i) <= (s.len() - i) * s.len(),
    decreases s.len() - i,
{
    let l = s.len() as int;
    if i >= l {
        assert((l - i) * l == 0) by (nonlinear_arith)
            requires
                i == l,
        ;
    } else {
        lemma_inv_with_bounds(s, i, i + 1);
        lemma_inv_from_bounds(s, i + 1);
        assert(inv_from(s, i) == inv_with(s, i, i + 1) + inv_from(s, i + 1));
        assert(inv_from(s, i) <= (l - i) * l) by (nonlinear_arith)
            requires
                inv_from(s, i) == inv_with(s, i, i + 1) + inv_from(s, i + 1),
                0 <= inv_with(s, i, i + 1) <= l - i - 1,
                0 <= inv_from(s, i + 1) <= (l - i - 1) * l,
                0 <= i < l,
        ;
    }
}

/// The blank contributes no inversions.
pub proof fn lemma_inv_with_zero(s: Seq<u8>, i: int, j: int)
    requires
        0 <= i < s.len(),
        s[i] == 0,
        0 <= j,
    ensures
        inv_with(s, i, j) == 0,
    decreases s.len() - j,
{
    if j < s.len() {
        lemma_inv_with_zero(s, i, j + 1);
    }
}

/// Inversions of the fixed label `v` against the cells of `s` from `j` on.
pub open spec fn inv_val(v: u8, s: Seq<u8>, j: int) -> int
    decreases s.len() - j,
{
    if j < 0 || j >= s.len() {
        0
    } else {
        inv_pair(v, s[j]) + inv_val(v, s, j + 1)
    }
}

/// Inversions of the cells from `k` up to `q` against the cell at `q`.
pub open spec fn col_sum(s: Seq<u8>, q: int, k: int) -> int
    decreases q - k,
{
    if k < 0 || k >= q {
        0
    } else {
        inv_pair(s[k], s[q]) + col_sum(s, q, k + 1)
    }
}

proof fn lemma_inv_with_is_val(s: Seq<u8>, i: int, j: int)
    requires
        0 <= i < s.len(),
        0 <= j,
    ensures
        inv_with(s, i, j) == inv_val(s[i], s, j),
    decreases s.len() - j,
{
    if j < s.len() {
        lemma_inv_with_is_val(s, i, j + 1);
    }
}

proof fn lemma_inv_val_blank(s: Seq<u8>, j: int)
    requires
        0 <= j,
    ensures
        inv_val(0u8, s, j) == 0,
    decreases s.len() - j,
{
    if j < s.len() {
        lemma_inv_val_blank(s, j + 1);
    }
}

proof fn lemma_inv_val_same(v: u8, s: Seq<u8>, t: Seq<u8>, j: int)
    requires
        s.len() == t.len(),
        0 <= j,
        forall|k: int| j <= k < s.len() ==> t[k] == s[k],
    ensures
        inv_val(v, t, j) == inv_val(v, s, j),
    decreases s.len() - j,
{
    if j < s.len() {
        lemma_inv_val_same(v, s, t, j + 1);
    }
}

proof fn lemma_inv_val_one_diff(v: u8, s: Seq<u8>, t: Seq<u8>, q: int, j: int)
    requires
        s.len() == t.len(),
        0 <= j <= q < s.len(),
        forall|k: int| j <= k < s.len() && k != q ==> t[k] == s[k],
    ensures
        inv_val(v, t, j) == inv_val(v, s, j) + inv_pair(v, t[q]) - inv_pair(v, s[q]),
    decreases s.len() - j,
{
    if j == q {
        lemma_inv_val_same(v, s, t, j + 1);
    } else {
        lemma_inv_val_one_diff(v, s, t, q, j + 1);
    }
}

proof fn lemma_inv_val_swap(v: u8, s: Seq<u8>, t: Seq<u8>, p: int, q: int, j: int)
    requires
        s.len() == t.len(),
        0 <= j <= p < q < s.len(),
        forall|k: int| j <= k < s.len() && k != p && k != q ==> t[k] == s[k],
        t[p] == s[q],
        t[q] == s[p],
    ensures
        inv_val(v, t, j) == inv_val(v, s, j),
    decreases s.len() - j,
{
    if j == p {
        lemma_inv_val_one_diff(v, s, t, q, p + 1);
    } else {
        lemma_inv_val_swap(v, s, t, p, q, j + 1);
    }
}

/// The swap relation of the parity lemmas: `t` is `s` with the cells at
/// `p` and `q` exchanged.
pub open spec fn is_swap_of(s: Seq<u8>, t: Seq<u8>, p: int, q: int) -> bool {
    &&& s.len() == t.len()
    &&& 0 <= p < q < s.len()
    &&& t[p] == s[q]
    &&& t[q] == s[p]
    &&& forall|k: int| 0 <= k < s.len() && k != p && k != q ==> t[k] == s[k]
}

proof fn lemma_rows_after(s: Seq<u8>, t: Seq<u8>, p: int, q: int, i: int)
    requires
        is_swap_of(s, t, p, q),
        q + 1 <= i,
        0 <= i,
    ensures
        inv_from(t, i) == inv_from(s, i),
    decreases s.len() - i,
{
    if i < s.len() {
        lemma_inv_with_is_val(s, i, i + 1);
        lemma_inv_with_is_val(t, i, i + 1);
        lemma_inv_val_same(s[i], s, t, i + 1);
        lemma_rows_after(s, t, p, q, i + 1);
    }
}

proof fn lemma_rows_mid_blank(s: Seq<u8>, t: Seq<u8>, p: int, q: int, i: int)
    requires
        is_swap_of(s, t, p, q),
        s[p] == 0,
        p < i <= q,
    ensures
        inv_from(t, i) == inv_from(s, i) - col_sum(s, q, i) - inv_val(s[q], s, q + 1),
    decreases q - i,
{
    if i == q {
        lemma_inv_with_is_val(t, q, q + 1);
        lemma_inv_val_blank(t, q + 1);
        assert(inv_with(t, q, q + 1) == 0);
        lemma_rows_after(s, t, p, q, q + 1);
        lemma_inv_with_is_val(s, q, q + 1);
    } else {
        lemma_inv_with_is_val(s, i, i + 1);
        lemma_inv_with_is_val(t, i, i + 1);
        lemma_inv_val_one_diff(s[i], s, t, q, i + 1);
        lemma_rows_mid_blank(s, t, p, q, i + 1);
    }
}

proof fn lemma_rows_top(s: Seq<u8>, t: Seq<u8>, p: int, q: int, i: int)
    requires
        is_swap_of(s, t, p, q),
        0 <= i <= p,
    ensures
        inv_from(t, i) - inv_from(t, p) == inv_from(s, i) - inv_from(s, p),
    decreases p - i,
{
    if i < p {
        lemma_inv_with_is_val(s, i, i + 1);
        lemma_inv_with_is_val(t, i, i + 1);
        lemma_inv_val_swap(s[i], s, t, p, q, i + 1);
        lemma_rows_top(s, t, p, q, i + 1);
    }
}

proof fn lemma_delta_parity(s: Seq<u8>, q: int, k: int)
    requires
        0 <= k <= q < s.len(),
        s[q] != 0,
        forall|j: int| k <= j < q ==> s[j] != 0 && s[j] != s[q],
    ensures
        (inv_val(s[q], s, k) - inv_val(s[q], s, q) - col_sum(s, q, k)) % 2 == (q - k) % 2,
    decreases q - k,
{
    if k < q {
        lemma_delta_parity(s, q, k + 1);
        assert(inv_val(s[q], s, k) == inv_pair(s[q], s[k]) + inv_val(s[q], s, k + 1));
        assert(col_sum(s, q, k) == inv_pair(s[k], s[q]) + col_sum(s, q, k + 1));
        assert(inv_pair(s[q], s[k]) + inv_pair(s[k], s[q]) == 1);
    }
}

/// Exchanging the blank at `p` with the cell at `q > p` changes the
/// inversion count by `q - p - 1` pairs' worth of parity: one flip for
/// every cell the moved tile jumps over.
proof fn lemma_blank_swap_parity(s: Seq<u8>, size: int, p: int, q: int)
    requires
        wf_cells(s, size),
        is_swap_of(s, t_of(s, p, q), p, q),
        0 <= p < q < s.len(),
        s[p] == 0,
    ensures
        (inversions(t_of(s, p, q)) - inversions(s)) % 2 == (q - p - 1) % 2,
{
    let t = t_of(s, p, q);
    lemma_blank_at(s);
    // the cells the tile jumps over are all non-blank and differ from it
    assert forall|j: int| p + 1 <= j < q implies s[j] != 0 && s[j] != s[q] by {
        assert(s[p] != s[j]);
        assert(s[j] != s[q]);
    }
    // the top rows shift together; the changed rows contribute the delta
    lemma_rows_top(s, t, p, q, 0);
    lemma_inv_with_is_val(t, p, p + 1);
    lemma_inv_val_one_diff(s[q], s, t, q, p + 1);
    lemma_inv_with_is_val(s, p, p + 1);
    lemma_inv_val_blank(s, p + 1);
    assert(inv_with(s, p, p + 1) == 0);
    lemma_rows_mid_blank(s, t, p, q, p + 1);
    assert(inv_from(t, p) == inv_with(t, p, p + 1) + inv_from(t, p + 1));
    assert(inv_from(s, p) == inv_with(s, p, p + 1) + inv_from(s, p + 1));
    assert(inv_with(t, p, p + 1) == inv_val(s[q], s, p + 1) + inv_pair(s[q], 0u8) - inv_pair(
        s[q],
        s[q],
    ));
    assert(inv_val(s[q], s, q) == inv_pair(s[q], s[q]) + inv_val(s[q], s, q + 1));
    lemma_delta_parity(s, q, p + 1);
}

/// The exchanged sequence itself.
pub open spec fn t_of(s: Seq<u8>, p: int, q: int) -> Seq<u8> {
    s.update(p, s[q]).update(q, s[p])
}

proof fn lemma_t_of_is_swap(s: Seq<u8>, p: int, q: int)
    requires
        0 <= p < q < s.len(),
    ensures
        is_swap_of(s, t_of(s, p, q), p, q),
{
}

/// Exchanging the blank with any later cell changes inversion parity by
/// the number of cells in between; stated for the blank on either end.
proof fn lemma_blank_swap_parity_either(s: Seq<u8>, size: int, p: int, q: int)
    requires
        wf_cells(s, size),
        0 <= p < q < s.len(),
        s[p] == 0 || s[q] == 0,
    ensures
        wf_cells(t_of(s, p, q), size),
        (inversions(t_of(s, p, q)) - inversions(s)) % 2 == (q - p - 1) % 2,
        blank_of(t_of(s, p, q)) == (if s[p] == 0 {
            q
        } else {
            p
        }),
    decreases s.len(),
{
    let t = t_of(s, p, q);
    lemma_t_of_is_swap(s, p, q);
    lemma_swap_wf(s, size, p, q);
    lemma_blank_at(s);
    lemma_blank_at(t);
    if s[p] == 0 {
        lemma_blank_swap_parity(s, size, p, q);
        assert(t[q] == 0);
    } else {
        // the blank sits at `q`: swapping back is the mirrored exchange
        assert(t[p] == 0);
        assert(t_of(t, p, q) =~= s);
        lemma_t_of_is_swap(t, p, q);
        lemma_blank_swap_parity(t, size, p, q);
    }
}

/// Legal moves never change the solvability class: the parity invariant
/// of the closed-form test is preserved by every slide of the blank.
pub proof fn lemma_move_preserves_solvable(s: Seq<u8>, size: int, m: Move)
    requires
        wf_cells(s, size),
        move_legal(s, size, m),
    ensures
        solvable(apply_move(s, size, m), size) == solvable(s, size),
{
    if m == Move::Stay {
        return ;
    }
    lemma_blank_at(s);
    let b = blank_of(s);
    let t = apply_move(s, size, m);
    lemma_move_effect(s, size, m);
    lemma_grid(b, size);
    let r = b / size;
    let c = b % size;
    assert(b == r * size + c) by (nonlinear_arith)
        requires
            b == size * r + c,
    ;
    let p = if b + move_delta(m, size) < b {
        b + move_delta(m, size)
    } else {
        b
    };
    let q = if b + move_delta(m, size) < b {
        b
    } else {
        b + move_delta(m, size)
    };
    assert(t =~= t_of(s, p, q));
    lemma_blank_swap_parity_either(s, size, p, q);
    let tb = blank_of(t);
    match m {
        Move::Left => {
            lemma_row_col(r, c - 1, size);
            assert(tb == b - 1 && tb / size == r);
            assert((q - p - 1) % 2 == 0);
        },
        Move::Right => {
            lemma_row_col(r, c + 1, size);
            assert(tb == b + 1 && tb / size == r);
            assert((q - p - 1) % 2 == 0);
        },
        Move::Up => {
            assert(r >= 1) by (nonlinear_arith)
                requires
                    b == r * size + c,
                    b >= size,
                    0 <= c < size,
                    0 <= r,
                    2 <= size,
            ;
            assert(q - p - 1 == size - 1);
            lemma_row_col(r - 1, c, size);
            assert(tb == b - size) by (nonlinear_arith)
                requires
                    tb == b + move_delta(m, size),
                    move_delta(m, size) == -size,
            ;
            assert(tb == (r - 1) * size + c) by (nonlinear_arith)
                requires
                    b == r * size + c,
                    tb == b - size,
            ;
            assert(tb / size == r - 1);
        },
        Move::Down => {
            assert(q - p - 1 == size - 1);
            lemma_row_col(r + 1, c, size);
            assert(tb == (r + 1) * size + c) by (nonlinear_arith)
                requires
                    b == r * size + c,
                    tb == b + size,
            ;
            assert(tb / size == r + 1);
        },
        Move::Stay => {},
    }
    if size % 2 == 1 {
        assert((size - 1) % 2 == 0);
        assert(inversions(t) % 2 == inversions(s) % 2);
    } else {
        assert(blank_row(t, size) == blank_row(s, size) + (if m == Move::Up {
            -1int
        } else if m == Move::Down {
            1int
        } else {
            0int
        }));
    }
}

/// A legal path never changes the solvability class either: the parity
/// invariant carries over every step of a replay.
pub proof fn lemma_path_preserves_solvable(s: Seq<u8>, size: int, p: Seq<Move>)
    requires
        wf_cells(s, size),
        path_ok(s, size, p),
    ensures
        solvable(apply_moves(s, size, p), size) == solvable(s, size),
    decreases p.len(),
{
    if p.len() > 0 {
        lemma_move_effect(s, size, p[0]);
        lemma_move_preserves_solvable(s, size, p[0]);
        lemma_path_preserves_solvable(apply_move(s, size, p[0]), size, p.drop_first());
    }
}

/// Exchanging two adjacent non-blank cells flips solvability: the
/// inversion parity flips while the blank's row stays put. This is the
/// deterministic correction used when a shuffle lands in the wrong class.
pub proof fn lemma_swap_nonblank_flips_solvable(s: Seq<u8>, size: int, p: int)
    requires
        wf_cells(s, size),
        0 <= p,
        p + 1 < s.len(),
        s[p] != 0,
        s[p + 1] != 0,
    ensures
        ({
            let t = t_of(s, p, p + 1);
            &&& wf_cells(t, size)
            &&& t.to_multiset() == s.to_multiset()
            &&& blank_of(t) == blank_of(s)
            &&& solvable(t, size) == !solvable(s, size)
        }),
{
    let q = p + 1;
    let t = t_of(s, p, q);
    lemma_t_of_is_swap(s, p, q);
    lemma_swap_wf(s, size, p, q);
    lemma_blank_at(s);
    lemma_blank_at(t);
    let b = blank_of(s);
    assert(t[b] == 0);
    assert(blank_of(t) == b);
    // rows outside the pair keep their contributions; the pair flips
    lemma_rows_top(s, t, p, q, 0);
    lemma_rows_after(s, t, p, q, q + 1);
    lemma_inv_with_is_val(t, p, p + 1);
    lemma_inv_val_one_diff(s[q], s, t, q, p + 1);
    lemma_inv_with_is_val(s, p, p + 1);
    lemma_inv_with_is_val(t, q, q + 1);
    lemma_inv_val_same(s[p], s, t, q + 1);
    lemma_inv_with_is_val(s, q, q + 1);
    assert(inv_from(t, q) == inv_with(t, q, q + 1) + inv_from(t, q + 1));
    assert(inv_from(s, q) == inv_with(s, q, q + 1) + inv_from(s, q + 1));
    assert(inv_from(t, p) == inv_with(t, p, p + 1) + inv_from(t, q));
    assert(inv_from(s, p) == inv_with(s, p, p + 1) + inv_from(s, q));
    assert(inv_val(s[q], s, p + 1) == inv_pair(s[q], s[p + 1]) + inv_val(s[q], s, q + 1));
    assert(inv_val(s[p], s, p + 1) == inv_pair(s[p], s[p + 1]) + inv_val(s[p], s, q + 1));
    assert(inv_pair(s[p], s[q]) + inv_pair(s[q], s[p]) == 1);
    assert(inversions(t) - inversions(s) == inv_pair(s[q], s[p]) - inv_pair(s[p], s[q]));
}

/// A sequence holding the same labels as a well-formed one, in any order,
/// is well formed itself.
pub proof fn lemma_multiset_wf(s: Seq<u8>, t: Seq<u8>, size: int)
    requires
        wf_cells(s, size),
        t.to_multiset() == s.to_multiset(),
    ensures
        wf_cells(t, size),
{
    assert(t.len() == t.to_multiset().len());
    assert(s.len() == s.to_multiset().len());
    assert(t.len() == s.len());
    assert forall|i: int| 0 <= i < t.len() implies (#[trigger] t[i] as int) < size * size by {
        assert(t.contains(t[i]));
        assert(t.to_multiset().count(t[i]) > 0);
        assert(s.contains(t[i]));
        let w = choose|k: int| 0 <= k < s.len() && s[k] == t[i];
        assert((s[w] as int) < size * size);
    }
    assert(s.no_duplicates());
    s.lemma_multiset_has_no_duplicates();
    assert forall|x: u8| t.to_multiset().contains(x) implies t.to_multiset().count(x) == 1 by {
        assert(s.to_multiset().count(x) == t.to_multiset().count(x));
    }
    t.lemma_multiset_has_no_duplicates_conv();
    assert(forall|i: int, j: int| 0 <= i < j < t.len() ==> t[i] != t[j]);
    lemma_blank_at(s);
    assert(s.contains(0u8));
    assert(s.to_multiset().count(0u8) > 0);
    assert(t.contains(0u8));
    let z = choose|k: int| 0 <= k < t.len() && t[k] == 0u8;
    assert(0 <= z < t.len() && t[z] == 0);
}

/// Relies on rand's `SliceRandom::shuffle` (through `thread_rng`): it
/// permutes the slice in place by swaps, so the multiset of elements is
/// unchanged whatever randomness drives it.
#[verifier::external_body]
fn shuffle_cells(values: &mut Vec<u8>)
    ensures
        final(values)@.to_multiset() == old(values)@.to_multiset(),
{
    rand::seq::SliceRandom::shuffle(values.as_mut_slice(), &mut rand::thread_rng());
}

/// What a single move constructor promises: a fresh well-formed board one
/// legal move past the parent, the move appended to the path, the cost up
/// by one, and the parent's score carried over unchanged.
pub open spec fn child_shape(parent: Board, b: Board, m: Move) -> bool {
    &&& b.wf()
    &&& b.size == parent.size
    &&& b.state@ == apply_move(parent.state@, parent.size as int, m)
    &&& b.m_list@ == parent.m_list@.push(m)
    &&& b.cost == parent.cost + 1
    &&& b.score == parent.score
}

/// What one expansion step promises of a child: a fresh well-formed board
/// one legal move past the parent, with the move appended to the path,
/// the cost up by one, and the score assigned by the evaluator.
pub open spec fn child_ok(parent: Board, h: Heuristic, b: Board, m: Move) -> bool {
    &&& b.wf()
    &&& b.size == parent.size
    &&& move_legal(parent.state@, parent.size as int, m)
    &&& b.state@ == apply_move(parent.state@, parent.size as int, m)
    &&& b.m_list@ == parent.m_list@.push(m)
    &&& b.cost == parent.cost + 1
    &&& b.score == h.score_spec(b.state@)
}

/// The singleton `[m]` when the move is legal, else nothing.
pub open spec fn opt_move(s: Seq<u8>, size: int, m: Move) -> Seq<Move> {
    if move_legal(s, size, m) {
        seq![m]
    } else {
        Seq::<Move>::empty()
    }
}

/// The legal directions at `s`, in the fixed expansion order `Up`,
/// `Down`, `Left`, `Right`.
pub open spec fn legal_moves(s: Seq<u8>, size: int) -> Seq<Move> {
    opt_move(s, size, Move::Up) + opt_move(s, size, Move::Down) + opt_move(s, size, Move::Left)
        + opt_move(s, size, Move::Right)
}

/// A well-formed board always has between two and four legal directions:
/// one of `Up`/`Down` and one of `Left`/`Right` is always open.
pub proof fn lemma_legal_moves_count(s: Seq<u8>, size: int)
    requires
        wf_cells(s, size),
    ensures
        2 <= legal_moves(s, size).len() <= 4,
{
    lemma_blank_at(s);
    let b = blank_of(s);
    lemma_grid(b, size);
    let r = b / size;
    let c = b % size;
    if !move_legal(s, size, Move::Up) {
        assert(b < size);
        assert(r == 0) by (nonlinear_arith)
            requires
                b == size * r + c,
                0 <= c < size,
                0 <= r,
                2 <= size,
                b < size,
        ;
        assert(move_legal(s, size, Move::Down));
    }
    if !move_legal(s, size, Move::Left) {
        assert(c == 0);
        assert(move_legal(s, size, Move::Right));
    }
}

/// Every legal direction moves the blank to exactly one adjacent cell and
/// permutes the same multiset of labels; together with
/// `lemma_legal_moves_count` this is the whole shape of one expansion.
pub proof fn lemma_expand_children(s: Seq<u8>, size: int)
    requires
        wf_cells(s, size),
    ensures
        2 <= legal_moves(s, size).len() <= 4,
        forall|k: int|
            0 <= k < legal_moves(s, size).len() ==> ({
                let m = #[trigger] legal_moves(s, size)[k];
                &&& move_legal(s, size, m)
                &&& (m == Move::Up || m == Move::Down || m == Move::Left || m == Move::Right)
                &&& blank_of(apply_move(s, size, m)) == blank_of(s) + move_delta(m, size)
                &&& (move_delta(m, size) == -1 || move_delta(m, size) == 1 || move_delta(m, size)
                    == -size || move_delta(m, size) == size)
                &&& apply_move(s, size, m).to_multiset() == s.to_multiset()
            }),
{
    lemma_legal_moves_count(s, size);
    assert forall|k: int| 0 <= k < legal_moves(s, size).len() implies ({
        let m = #[trigger] legal_moves(s, size)[k];
        &&& move_legal(s, size, m)
        &&& (m == Move::Up || m == Move::Down || m == Move::Left || m == Move::Right)
        &&& blank_of(apply_move(s, size, m)) == blank_of(s) + move_delta(m, size)
        &&& (move_delta(m, size) == -1 || move_delta(m, size) == 1 || move_delta(m, size) == -size
            || move_delta(m, size) == size)
        &&& apply_move(s, size, m).to_multiset() == s.to_multiset()
    }) by {
        let m = legal_moves(s, size)[k];
        assert(move_legal(s, size, m) && (m == Move::Up || m == Move::Down || m == Move::Left || m
            == Move::Right));
        lemma_move_effect(s, size, m);
    }
}

impl Board {
    /// The child of `parent_board` after the blank slides left, or nothing
    /// when the blank sits in the first column.
    pub fn move_left(parent_board: &Board) -> (r: Option<Board>)
        requires
            parent_board.wf(),
            parent_board.cost < i32::MAX,
        ensures
            (r is Some) == move_legal(parent_board.state@, parent_board.size as int, Move::Left),
            r matches Some(b) ==> child_shape(*parent_board, b, Move::Left),
    {
        let index = parent_board.get_index_of(&0u8);
        proof {
            lemma_blank_at(parent_board.state@);
            assert(parent_board.state@[blank_of(parent_board.state@)] == 0);
            assert(parent_board.state@.contains(0u8));
            assert(index as int == blank_of(parent_board.state@));
        }
        if index % parent_board.size == 0 {
            return Option::None;
        }
        proof {
            lemma_move_effect(parent_board.state@, parent_board.size as int, Move::Left);
            lemma_blank_at(apply_move(parent_board.state@, parent_board.size as int, Move::Left));
        }
        let val = parent_board.state[index - 1];
        let mut new_state = clone_cells(&parent_board.state);
        new_state.set(index, val);
        new_state.set(index - 1, 0);
        let mut m_list = copy_moves(&parent_board.m_list);
        m_list.push(Move::Left);
        Option::Some(
            Board {
                size: parent_board.size,
                state: new_state,
                m_list,
                cost: parent_board.cost + 1,
                score: parent_board.score,
            },
        )
    }

    /// The child of `parent_board` after the blank slides right, or
    /// nothing when the blank sits in the last column.
    pub fn move_right(parent_board: &Board) -> (r: Option<Board>)
        requires
            parent_board.wf(),
            parent_board.cost < i32::MAX,
        ensures
            (r is Some) == move_legal(parent_board.state@, parent_board.size as int, Move::Right),
            r matches Some(b) ==> child_shape(*parent_board, b, Move::Right),
    {
        let index = parent_board.get_index_of(&0u8);
        proof {
            lemma_blank_at(parent_board.state@);
            assert(parent_board.state@[blank_of(parent_board.state@)] == 0);
            assert(parent_board.state@.contains(0u8));
            assert(index as int == blank_of(parent_board.state@));
        }
        if index % parent_board.size == parent_board.size - 1 {
            return Option::None;
        }
        proof {
            lemma_move_effect(parent_board.state@, parent_board.size as int, Move::Right);
            lemma_blank_at(apply_move(parent_board.state@, parent_board.size as int, Move::Right));
            assert(parent_board.state@.len() <= 256) by (nonlinear_arith)
                requires
                    parent_board.state@.len() == (parent_board.size as int) * (
                    parent_board.size as int),
                    parent_board.size <= 16,
            ;
        }
        let val = parent_board.state[index + 1];
        let mut new_state = clone_cells(&parent_board.state);
        new_state.set(index, val);
        new_state.set(index + 1, 0);
        let mut m_list = copy_moves(&parent_board.m_list);
        m_list.push(Move::Right);
        Option::Some(
            Board {
                size: parent_board.size,
                state: new_state,
                m_list,
                cost: parent_board.cost + 1,
                score: parent_board.score,
            },
        )
    }

    /// The child of `parent_board` after the blank slides up, or nothing
    /// when the blank sits in the first row.
    pub fn move_up(parent_board: &Board) -> (r: Option<Board>)
        requires
            parent_board.wf(),
            parent_board.cost < i32::MAX,
        ensures
            (r is Some) == move_legal(parent_board.state@, parent_board.size as int, Move::Up),
            r matches Some(b) ==> child_shape(*parent_board, b, Move::Up),
    {
        let index = parent_board.get_index_of(&0u8);
        proof {
            lemma_blank_at(parent_board.state@);
            assert(parent_board.state@[blank_of(parent_board.state@)] == 0);
            assert(parent_board.state@.contains(0u8));
            assert(index as int == blank_of(parent_board.state@));
        }
        if index < parent_board.size {
            return Option::None;
        }
        proof {
            lemma_move_effect(parent_board.state@, parent_board.size as int, Move::Up);
            lemma_blank_at(apply_move(parent_board.state@, parent_board.size as int, Move::Up));
        }
        let val = parent_board.state[index - parent_board.size];
        let mut new_state = clone_cells(&parent_board.state);
        new_state.set(index, val);
        new_state.set(index - parent_board.size, 0);
        let mut m_list = copy_moves(&parent_board.m_list);
        m_list.push(Move::Up);
        Option::Some(
            Board {
                size: parent_board.size,
                state: new_state,
                m_list,
                cost: parent_board.cost + 1,
                score: parent_board.score,
            },
        )
    }

    /// The child of `parent_board` after the blank slides down, or nothing
    /// when the blank sits in the last row.
    pub fn move_down(parent_board: &Board) -> (r: Option<Board>)
        requires
            parent_board.wf(),
            parent_board.cost < i32::MAX,
        ensures
            (r is Some) == move_legal(parent_board.state@, parent_board.size as int, Move::Down),
            r matches Some(b) ==> child_shape(*parent_board, b, Move::Down),
    {
        let index = parent_board.get_index_of(&0u8);
        proof {
            lemma_blank_at(parent_board.state@);
            assert(parent_board.state@[blank_of(parent_board.state@)] == 0);
            assert(parent_board.state@.contains(0u8));
            assert(index as int == blank_of(parent_board.state@));
        }
        if index / parent_board.size == parent_board.size - 1 {
            return Option::None;
        }
        proof {
            lemma_move_effect(parent_board.state@, parent_board.size as int, Move::Down);
            lemma_blank_at(apply_move(parent_board.state@, parent_board.size as int, Move::Down));
            assert(parent_board.state@.len() <= 256) by (nonlinear_arith)
                requires
                    parent_board.state@.len() == (parent_board.size as int) * (
                    parent_board.size as int),
                    parent_board.size <= 16,
            ;
        }
        let val = parent_board.state[index + parent_board.size];
        let mut new_state = clone_cells(&parent_board.state);
        new_state.set(index, val);
        new_state.set(index + parent_board.size, 0);
        let mut m_list = copy_moves(&parent_board.m_list);
        m_list.push(Move::Down);
        Option::Some(
            Board {
                size: parent_board.size,
                state: new_state,
                m_list,
                cost: parent_board.cost + 1,
                score: parent_board.score,
            },
        )
    }

    /// Every legal successor of this board, in the fixed order `Up`,
    /// `Down`, `Left`, `Right`, each scored by the given evaluator. The
    /// parent is never touched.
    pub fn expand(&self, heuristics: &Heuristic) -> (r: Vec<Board>)
        requires
            self.wf(),
            heuristics.wf(),
            self.size == heuristics.start_board.size,
            self.cost < i32::MAX,
        ensures
            r@.len() == legal_moves(self.state@, self.size as int).len(),
            2 <= r@.len() <= 4,
            forall|k: int|
                0 <= k < r@.len() ==> child_ok(
                    *self,
                    *heuristics,
                    #[trigger] r@[k],
                    legal_moves(self.state@, self.size as int)[k],
                ),
    {
        proof {
            lemma_legal_moves_count(self.state@, self.size as int);
        }
        let ghost lm = legal_moves(self.state@, self.size as int);
        let mut moves: Vec<Board> = Vec::new();

        let move_up = Board::move_up(&self);
        if let Option::Some(mut board) = move_up {
            proof {
                lemma_move_effect(self.state@, self.size as int, Move::Up);
            }
            board.score = heuristics.calculate_move_cost(&board);
            moves.push(board);
        }

        let move_down = Board::move_down(&self);
        if let Option::Some(mut board) = move_down {
            proof {
                lemma_move_effect(self.state@, self.size as int, Move::Down);
            }
            board.score = heuristics.calculate_move_cost(&board);
            moves.push(board);
        }

        let move_left = Board::move_left(&self);
        if let Option::Some(mut board) = move_left {
            proof {
                lemma_move_effect(self.state@, self.size as int, Move::Left);
            }
            board.score = heuristics.calculate_move_cost(&board);
            moves.push(board);
        }

        let move_right = Board::move_right(&self);
        if let Option::Some(mut board) = move_right {
            proof {
                lemma_move_effect(self.state@, self.size as int, Move::Right);
            }
            board.score = heuristics.calculate_move_cost(&board);
            moves.push(board);
        }

        proof {
            assert(lm == opt_move(self.state@, self.size as int, Move::Up) + opt_move(
                self.state@,
                self.size as int,
                Move::Down,
            ) + opt_move(self.state@, self.size as int, Move::Left) + opt_move(
                self.state@,
                self.size as int,
                Move::Right,
            ));
        }
        moves
    }

    /// Whether this board can reach the canonical solved layout by legal
    /// slides, by the closed-form parity test.
    pub fn is_solvable(&self) -> (r: bool)
        requires
            self.wf(),
        ensures
            r == solvable(self.state@, self.size as int),
    {
        Board::is_solvable_arr(&self.state, self.size)
    }

    /// The parity test on a bare cell vector: counts inversions and the
    /// blank's row, then applies the odd/even side-length rule.
    pub fn is_solvable_arr(state: &Vec<u8>, row_size: usize) -> (r: bool)
        requires
            wf_cells(state@, row_size as int),
        ensures
            r == solvable(state@, row_size as int),
    {
        let n = state.len();
        proof {
            lemma_blank_at(state@);
            lemma_inv_from_bounds(state@, 0);
            assert(n <= 256) by (nonlinear_arith)
                requires
                    n == (row_size as int) * (row_size as int),
                    2 <= row_size <= 16,
            ;
        }
        let mut inv_total: usize = 0;
        let mut zero_row: usize = 0;
        let mut index: usize = 0;
        while index < n
            invariant
                wf_cells(state@, row_size as int),
                n == state@.len(),
                n <= 256,
                index <= n,
                inv_total + inv_from(state@, index as int) == inv_from(state@, 0),
                inv_total <= n * n,
                blank_of(state@) < index ==> zero_row as int == blank_row(
                    state@,
                    row_size as int,
                ),
                blank_of(state@) >= index ==> zero_row == 0,
                zero_row <= n,
            decreases n - index,
        {
            proof {
                lemma_blank_at(state@);
            }
            let current = state[index];
            if current == 0 {
                zero_row = index / row_size;
                proof {
                    vstd::arithmetic::div_mod::lemma_div_nonincreasing(index as int, row_size as int);
                    assert(index as int == blank_of(state@));
                    lemma_inv_with_zero(state@, index as int, index as int + 1);
                    assert(inv_from(state@, index as int) == inv_with(
                        state@,
                        index as int,
                        index as int + 1,
                    ) + inv_from(state@, index as int + 1));
                }
            } else {
                proof {
                    assert(inv_from(state@, index as int) == inv_with(
                        state@,
                        index as int,
                        index as int + 1,
                    ) + inv_from(state@, index as int + 1));
                    lemma_inv_from_bounds(state@, index as int + 1);
                    lemma_inv_with_bounds(state@, index as int, index as int + 1);
                }
                let mut nindex: usize = index + 1;
                while nindex < n
                    invariant
                        wf_cells(state@, row_size as int),
                        n == state@.len(),
                        n <= 256,
                        index < n,
                        index < nindex <= n,
                        current == state@[index as int],
                        inv_total + inv_with(state@, index as int, nindex as int) + inv_from(
                            state@,
                            index as int + 1,
                        ) == inv_from(state@, 0),
                        inv_total <= n * n,
                    decreases n - nindex,
                {
                    proof {
                        assert(inv_with(state@, index as int, nindex as int) == inv_pair(
                            state@[index as int],
                            state@[nindex as int],
                        ) + inv_with(state@, index as int, nindex as int + 1));
                        lemma_inv_with_bounds(state@, index as int, nindex as int + 1);
                        lemma_inv_from_bounds(state@, index as int + 1);
                        lemma_inv_from_bounds(state@, 0);
                        assert(n * n <= 65536) by (nonlinear_arith)
                            requires
                                n <= 256,
                        ;
                    }
                    if state[nindex] != 0 && current > state[nindex] {
                        inv_total += 1;
                    }
                    nindex += 1;
                }
                proof {
                    assert(inv_with(state@, index as int, n as int) == 0);
                }
            }
            index += 1;
        }
        proof {
            assert(inv_from(state@, n as int) == 0);
            assert(inv_total as int == inversions(state@));
            assert(zero_row as int == blank_row(state@, row_size as int));
            assert(n * n <= 65536) by (nonlinear_arith)
                requires
                    n <= 256,
            ;
        }
        if row_size % 2 != 0 {
            inv_total % 2 == 0
        } else {
            (inv_total + zero_row) % 2 != 0
        }
    }

    /// A random solvable board of the given side length, with an empty
    /// path, zero cost and zero score. The cells are shuffled and
    /// re-shuffled while the parity test fails; if the dice stay cold, one
    /// adjacent non-blank pair is exchanged, which provably lands the
    /// board in the solvable class.
    pub fn generate_board(size: usize) -> (r: Board)
        requires
            2 <= size <= 16,
        ensures
            r.wf(),
            r.size == size,
            solvable(r.state@, size as int),
            r.m_list@.len() == 0,
            r.cost == 0,
            r.score == 0,
    {
        proof {
            assert((size as int) * (size as int) <= 256) by (nonlinear_arith)
                requires
                    2 <= size <= 16,
            ;
            assert((size as int) * (size as int) >= 4) by (nonlinear_arith)
                requires
                    2 <= size <= 16,
            ;
        }
        let n = size * size;
        let mut values: Vec<u8> = Vec::new();
        let mut i: usize = 0;
        while i < n
            invariant
                i <= n,
                n == (size as int) * (size as int),
                n <= 256,
                values@.len() == i,
                forall|k: int| 0 <= k < i ==> values@[k] == k as u8,
            decreases n - i,
        {
            values.push(i as u8);
            i += 1;
        }
        proof {
            assert(values@[0] == 0);
            assert(wf_cells(values@, size as int));
        }
        let mut ok = false;
        let mut tries: usize = 0;
        while tries < 32 && !ok
            invariant
                2 <= size <= 16,
                n == (size as int) * (size as int),
                4 <= n <= 256,
                wf_cells(values@, size as int),
                values@.len() == n,
                ok ==> solvable(values@, size as int),
                tries > 0 && !ok ==> !solvable(values@, size as int),
                tries <= 32,
            decreases 32 - tries,
        {
            let ghost pre = values@;
            shuffle_cells(&mut values);
            proof {
                lemma_multiset_wf(pre, values@, size as int);
            }
            ok = Board::is_solvable_arr(&values, size);
            tries += 1;
        }
        if !ok {
            // find the blank, then exchange an adjacent pair away from it
            let mut zi: usize = 0;
            while zi < n && values[zi] != 0
                invariant
                    n == values@.len(),
                    zi <= n,
                    forall|k: int| 0 <= k < zi ==> values@[k] != 0,
                decreases n - zi,
            {
                zi += 1;
            }
            proof {
                lemma_blank_at(values@);
                assert(zi < n);
                assert(zi as int == blank_of(values@));
            }
            let p: usize = if zi <= 1 {
                2
            } else {
                0
            };
            let ghost pre = values@;
            let a = values[p];
            let b = values[p + 1];
            values.set(p, b);
            values.set(p + 1, a);
            proof {
                lemma_swap_nonblank_flips_solvable(pre, size as int, p as int);
                assert(values@ =~= t_of(pre, p as int, p as int + 1));
            }
        }
        Board { size, state: values, m_list: Vec::new(), cost: 0, score: 0 }
    }

    /// Whether this board is a well-formed puzzle: a supported side
    /// length, exactly `size * size` cells, every label in range, no
    /// label twice, and the blank present. Callers outside the verified
    /// world use this to reject malformed configurations up front.
    pub fn check_valid(&self) -> (r: bool)
        ensures
            r == self.wf(),
    {
        if self.size < 2 || self.size > 16 {
            return false;
        }
        proof {
            assert((self.size as int) * (self.size as int) <= 256) by (nonlinear_arith)
                requires
                    2 <= self.size <= 16,
            ;
        }
        let n = self.size * self.size;
        if self.state.len() != n {
            return false;
        }
        let mut found_zero = false;
        let mut i: usize = 0;
        while i < n
            invariant
                i <= n,
                n == self.state@.len(),
                n == (self.size as int) * (self.size as int),
                n <= 256,
                forall|k: int| 0 <= k < i ==> (#[trigger] self.state@[k] as int) < n,
                found_zero == exists|k: int| 0 <= k < i && self.state@[k] == 0,
                forall|k1: int, k2: int|
                    0 <= k1 < k2 < n && k1 < i ==> self.state@[k1] != self.state@[k2],
            decreases n - i,
        {
            if self.state[i] as usize >= n {
                return false;
            }
            if self.state[i] == 0 {
                found_zero = true;
            }
            let mut j: usize = i + 1;
            while j < n
                invariant
                    i < j <= n,
                    n == self.state@.len(),
                    forall|k: int| i < k < j ==> self.state@[k] != self.state@[i as int],
                decreases n - j,
            {
                if self.state[j] == self.state[i] {
                    return false;
                }
                j += 1;
            }
            proof {
                if self.state@[i as int] == 0 {
                    let w: int = i as int;
                    assert(0 <= w < w + 1 && self.state@[w] == 0);
                }
            }
            i += 1;
        }
        found_zero
    }

    /// The index of the first cell holding `input`, or the cell count when
    /// no cell does.
    pub fn get_index_of(&self, input: &u8) -> (r: usize)
        ensures
            r <= self.state@.len(),
            forall|k: int| 0 <= k < r ==> self.state@[k] != *input,
            r < self.state@.len() ==> self.state@[r as int] == *input,
            r == self.state@.len() ==> !self.state@.contains(*input),
    {
        let n = self.state.len();
        let mut index: usize = 0;
        while index < n && self.state[index] != *input
            invariant
                index <= n,
                n == self.state@.len(),
                forall|k: int| 0 <= k < index ==> self.state@[k] != *input,
            decreases n - index,
        {
            index += 1;
        }
        index
    }
}

} // verus!
