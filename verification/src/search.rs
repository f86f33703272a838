//! The priority store and the bidirectional search driver: two sides,
//! each with a frontier and an explored store ordered by heuristic score,
//! expanded in lockstep until a configuration discovered by one side is
//! found on the other, at which point the two half-paths are spliced.

use vstd::prelude::*;
use crate::board::Board;
use crate::board::Move;
use crate::board::same_cells;
use crate::board::copy_moves;
use crate::board::solvable;
use crate::board::path_ok;
use crate::board::apply_move;
use crate::board::apply_moves;
use crate::board::invert_path;
use crate::board::legal_moves;
use crate::board::child_ok;
use crate::board::all_directional;
use crate::board::lemma_expand_children;
use crate::board::lemma_path_snoc;
use crate::board::lemma_path_roundtrip;
use crate::board::lemma_path_concat;
use crate::heuristics::Heuristic;

verus! {

/// Whether a board is an honest product of a search rooted at `root`: it
/// is well formed, of the right size, and its recorded path — directional
/// moves only — legally replays from the root to exactly its
/// configuration.
pub open spec fn reaches(root: Seq<u8>, size: int, b: Board) -> bool {
    &&& b.wf()
    &&& b.size as int == size
    &&& all_directional(b.m_list@)
    &&& path_ok(root, size, b.m_list@)
    &&& apply_moves(root, size, b.m_list@) == b.state@
}

/// One priority bucket: the boards sharing one heuristic score.
pub struct Bucket {
    /// The score shared by every board in this bucket.
    pub priority: i32,
    /// The boards, deduplicated by configuration.
    pub boards: Vec<Board>,
}

/// An ordered map from score to the non-empty set of boards holding that
/// score, backing both the frontier and the explored store of one search
/// side. Insertion deduplicates by configuration, extraction takes from
/// the lowest score.
pub struct BoardStore {
    /// The buckets, in strictly increasing priority order.
    pub buckets: Vec<Bucket>,
}

impl BoardStore {
    /// The store's invariant: priorities strictly increase, no bucket is
    /// empty, every board's score equals its bucket's priority, and no
    /// two boards of one bucket share a configuration.
    pub open spec fn wf(self) -> bool {
        &&& forall|i: int, j: int|
            0 <= i < j < self.buckets@.len() ==> self.buckets@[i].priority
                < self.buckets@[j].priority
        &&& forall|i: int| 0 <= i < self.buckets@.len() ==> (#[trigger] self.buckets@[i]).boards@.len() > 0
        &&& forall|i: int, j: int|
            0 <= i < self.buckets@.len() && 0 <= j < self.buckets@[i].boards@.len() ==> (
            #[trigger] self.buckets@[i].boards@[j]).score == self.buckets@[i].priority
        &&& forall|i: int, j1: int, j2: int|
            0 <= i < self.buckets@.len() && 0 <= j1 < j2 < self.buckets@[i].boards@.len()
                ==> self.buckets@[i].boards@[j1].state@ != self.buckets@[i].boards@[j2].state@
    }

    /// Whether exactly this board value sits somewhere in the store.
    pub open spec fn contains_board(self, b: Board) -> bool {
        exists|i: int, j: int|
            0 <= i < self.buckets@.len() && 0 <= j < self.buckets@[i].boards@.len() && (
            #[trigger] self.buckets@[i].boards@[j]) == b
    }

    /// Whether some board with this configuration and this score sits in
    /// the store; this is what priority-keyed lookup can see.
    pub open spec fn contains_cfg_scored(self, cells: Seq<u8>, score: i32) -> bool {
        exists|i: int, j: int|
            0 <= i < self.buckets@.len() && 0 <= j < self.buckets@[i].boards@.len() && (
            #[trigger] self.buckets@[i].boards@[j]).state@ == cells && self.buckets@[i].boards@[j].score
                == score
    }

    /// Whether some board with this configuration sits in the store, at
    /// any score.
    pub open spec fn contains_cfg(self, cells: Seq<u8>) -> bool {
        exists|i: int, j: int|
            0 <= i < self.buckets@.len() && 0 <= j < self.buckets@[i].boards@.len() && (
            #[trigger] self.buckets@[i].boards@[j]).state@ == cells
    }

    /// Whether every board in the store honestly reaches from `root`.
    pub open spec fn all_reach(self, root: Seq<u8>, size: int) -> bool {
        forall|i: int, j: int|
            0 <= i < self.buckets@.len() && 0 <= j < self.buckets@[i].boards@.len() ==> reaches(
                root,
                size,
                #[trigger] self.buckets@[i].boards@[j],
            )
    }

    /// An empty store.
    pub fn new() -> (r: BoardStore)
        ensures
            r.wf(),
            r.buckets@.len() == 0,
            forall|b: Board| !(#[trigger] r.contains_board(b)),
    {
        BoardStore { buckets: Vec::new() }
    }

    /// The first bucket index whose priority is at least `priority`, or
    /// the bucket count when every bucket sits below it.
    fn find_bucket(&self, priority: i32) -> (r: usize)
        requires
            self.wf(),
        ensures
            r <= self.buckets@.len(),
            forall|k: int| 0 <= k < r ==> (#[trigger] self.buckets@[k]).priority < priority,
            r < self.buckets@.len() ==> self.buckets@[r as int].priority >= priority,
    {
        let n = self.buckets.len();
        let mut i: usize = 0;
        while i < n && self.buckets[i].priority < priority
            invariant
                i <= n,
                n == self.buckets@.len(),
                forall|k: int| 0 <= k < i ==> (#[trigger] self.buckets@[k]).priority < priority,
            decreases n - i,
        {
            i += 1;
        }
        i
    }

    /// Extracts one board from the lowest-priority bucket, deleting the
    /// bucket when it empties; `None` exactly on an empty store.
    pub fn pop_min(&mut self) -> (r: Option<Board>)
        requires
            old(self).wf(),
        ensures
            final(self).wf(),
            (r is None) == (old(self).buckets@.len() == 0),
            r is None ==> *final(self) == *old(self),
            r matches Some(b) ==> old(self).contains_board(b)
                && b == old(self).buckets@[0].boards@[0]
                && !final(self).contains_board(b)
                && (forall|b2: Board| #[trigger] old(self).contains_board(b2) ==> b.score <= b2.score)
                && (forall|b2: Board| #[trigger] final(self).contains_board(b2) ==> old(self).contains_board(b2))
                && (forall|b2: Board|
                    #[trigger] old(self).contains_board(b2) && b2 != b
                        ==> final(self).contains_board(b2)),
            old(self).buckets@.len() > 0 && old(self).buckets@[0].boards@.len() > 1
                ==> final(self).buckets@.len() == old(self).buckets@.len()
                    && final(self).buckets@[0].priority == old(self).buckets@[0].priority
                    && final(self).buckets@[0].boards@ == old(self).buckets@[0].boards@.drop_first()
                    && (forall|i: int|
                        1 <= i < old(self).buckets@.len() ==> final(self).buckets@[i] == old(
                            self,
                        ).buckets@[i]),
            old(self).buckets@.len() > 0 && old(self).buckets@[0].boards@.len() == 1
                ==> final(self).buckets@ == old(self).buckets@.drop_first(),
    {
        if self.buckets.len() == 0 {
            return Option::None;
        }
        let ghost pre = *self;
        let bref = bucket_mut(&mut self.buckets, 0);
        let board = bref.boards.remove(0);
        let now_empty = bref.boards.len() == 0;
        if now_empty {
            self.buckets.remove(0);
        }
        proof {
            assert(pre.contains_board(board)) by {
                assert(pre.buckets@[0].boards@[0] == board);
            }
            if now_empty {
                assert(self.buckets@ =~= pre.buckets@.drop_first());
            } else {
                assert(self.buckets@[0].boards@ =~= pre.buckets@[0].boards@.drop_first());
            }
            assert forall|b2: Board| pre.contains_board(b2) implies board.score <= b2.score by {
                let (i, j) = choose|i: int, j: int|
                    0 <= i < pre.buckets@.len() && 0 <= j < pre.buckets@[i].boards@.len() && (
                    #[trigger] pre.buckets@[i].boards@[j]) == b2;
                if i > 0 {
                    assert(pre.buckets@[0].priority < pre.buckets@[i].priority);
                }
            }
            assert forall|b2: Board| self.contains_board(b2) implies pre.contains_board(b2) by {
                let (i, j) = choose|i: int, j: int|
                    0 <= i < self.buckets@.len() && 0 <= j < self.buckets@[i].boards@.len() && (
                    #[trigger] self.buckets@[i].boards@[j]) == b2;
                if now_empty {
                    assert(pre.buckets@[i + 1].boards@[j] == b2);
                } else {
                    if i == 0 {
                        assert(pre.buckets@[0].boards@[j + 1] == b2);
                    } else {
                        assert(pre.buckets@[i].boards@[j] == b2);
                    }
                }
            }
            assert(!self.contains_board(board)) by {
                if self.contains_board(board) {
                    let (i, j) = choose|i: int, j: int|
                        0 <= i < self.buckets@.len() && 0 <= j < self.buckets@[i].boards@.len()
                            && (#[trigger] self.buckets@[i].boards@[j]) == board;
                    if now_empty {
                        assert(pre.buckets@[i + 1].boards@[j] == board);
                        assert(pre.buckets@[0].priority < pre.buckets@[i + 1].priority);
                        assert(board.score == pre.buckets@[0].priority);
                        assert(false);
                    } else {
                        if i == 0 {
                            assert(pre.buckets@[0].boards@[j + 1] == board);
                            assert(pre.buckets@[0].boards@[0].state@ != pre.buckets@[0].boards@[j
                                + 1].state@);
                            assert(false);
                        } else {
                            assert(pre.buckets@[i].boards@[j] == board);
                            assert(pre.buckets@[0].priority < pre.buckets@[i].priority);
                            assert(board.score == pre.buckets@[0].priority);
                            assert(false);
                        }
                    }
                }
            }
            assert forall|b2: Board| pre.contains_board(b2) && b2 != board implies
                self.contains_board(b2) by {
                let (i, j) = choose|i: int, j: int|
                    0 <= i < pre.buckets@.len() && 0 <= j < pre.buckets@[i].boards@.len() && (
                    #[trigger] pre.buckets@[i].boards@[j]) == b2;
                if now_empty {
                    assert(i > 0);
                    assert(self.buckets@[i - 1].boards@[j] == b2);
                } else {
                    if i == 0 {
                        assert(j > 0);
                        assert(self.buckets@[0].boards@[j - 1] == b2);
                    } else {
                        assert(self.buckets@[i].boards@[j] == b2);
                    }
                }
            }
        }
        Option::Some(board)
    }

    /// Priority-keyed membership: whether a board configuration-equal to
    /// the given one, carrying the same score, sits in the store. The
    /// lookup walks only the bucket of that score, so a board whose score
    /// was computed differently is invisible to it.
    pub fn contains(&self, board: &Board) -> (r: bool)
        requires
            self.wf(),
        ensures
            r == self.contains_cfg_scored(board.state@, board.score),
    {
        let idx = self.find_bucket(board.score);
        if idx < self.buckets.len() {
            if self.buckets[idx].priority == board.score {
                let f = bucket_find(&self.buckets[idx], board);
                proof {
                    if f is Some {
                        let j = f->0;
                        assert(self.buckets@[idx as int].boards@[j as int].state@
                            == board.state@);
                    } else {
                        if self.contains_cfg_scored(board.state@, board.score) {
                            let (i, j) = choose|i: int, j: int|
                                0 <= i < self.buckets@.len() && 0 <= j
                                    < self.buckets@[i].boards@.len() && (
                                #[trigger] self.buckets@[i].boards@[j]).state@ == board.state@
                                    && self.buckets@[i].boards@[j].score == board.score;
                            assert(self.buckets@[i].priority == board.score);
                            if i < idx as int {
                                assert(self.buckets@[i].priority < board.score);
                            } else if i > idx as int {
                                assert(self.buckets@[idx as int].priority
                                    < self.buckets@[i].priority);
                            }
                            assert(i == idx as int);
                            assert(false);
                        }
                    }
                }
                return f.is_some();
            }
        }
        proof {
            if self.contains_cfg_scored(board.state@, board.score) {
                let (i, j) = choose|i: int, j: int|
                    0 <= i < self.buckets@.len() && 0 <= j < self.buckets@[i].boards@.len() && (
                    #[trigger] self.buckets@[i].boards@[j]).state@ == board.state@
                        && self.buckets@[i].boards@[j].score == board.score;
                assert(self.buckets@[i].priority == board.score);
                if i < idx as int {
                    assert(self.buckets@[i].priority < board.score);
                } else {
                    assert(self.buckets@[idx as int].priority >= board.score);
                    if i > idx as int {
                        assert(self.buckets@[idx as int].priority < self.buckets@[i].priority);
                    }
                }
                assert(false);
            }
        }
        false
    }

    /// Full-store membership by configuration alone, returning where the
    /// matching board sits; this is the meeting check across search
    /// sides, which must not depend on how the other side scored it.
    pub fn find_config(&self, board: &Board) -> (r: Option<(usize, usize)>)
        ensures
            r matches Some(ij) ==> ij.0 < self.buckets@.len() && ij.1
                < self.buckets@[ij.0 as int].boards@.len() && self.buckets@[ij.0 as int].boards@[ij.1 as int].state@
                == board.state@,
            r is None ==> !self.contains_cfg(board.state@),
    {
        let n = self.buckets.len();
        let mut i: usize = 0;
        while i < n
            invariant
                i <= n,
                n == self.buckets@.len(),
                forall|bi: int, j: int|
                    0 <= bi < i && 0 <= j < self.buckets@[bi].boards@.len() ==> (
                    #[trigger] self.buckets@[bi].boards@[j]).state@ != board.state@,
            decreases n - i,
        {
            let f = bucket_find(&self.buckets[i], board);
            if let Option::Some(j) = f {
                return Option::Some((i, j));
            }
            i += 1;
        }
        Option::None
    }
}

/// A mutable borrow of one bucket of the vector.
fn bucket_mut(v: &mut Vec<Bucket>, i: usize) -> (element: &mut Bucket)
    requires
        i < old(v).len(),
    ensures
        *element == old(v)@[i as int],
        final(v)@ == old(v)@.update(i as int, *final(element)),
{
    &mut v[i]
}

/// The index of the first board of the bucket configuration-equal to the
/// given one, if any.
fn bucket_find(bucket: &Bucket, board: &Board) -> (r: Option<usize>)
    ensures
        r matches Some(j) ==> j < bucket.boards@.len() && bucket.boards@[j as int].state@
            == board.state@,
        r is None ==> forall|j: int|
            0 <= j < bucket.boards@.len() ==> (#[trigger] bucket.boards@[j]).state@
                != board.state@,
{
    let n = bucket.boards.len();
    let mut j: usize = 0;
    while j < n
        invariant
            j <= n,
            n == bucket.boards@.len(),
            forall|k: int|
                0 <= k < j ==> (#[trigger] bucket.boards@[k]).state@ != board.state@,
        decreases n - j,
    {
        if same_cells(&bucket.boards[j].state, &board.state) {
            return Option::Some(j);
        }
        j += 1;
    }
    Option::None
}

/// The result shape of an insertion into an existing bucket: the bucket
/// at `i` carries the board's score and becomes its old sequence with
/// the board appended at the end; every other bucket is untouched.
pub open spec fn appended_in_bucket(pre: BoardStore, post: BoardStore, i: int, b: Board) -> bool {
    &&& 0 <= i < pre.buckets@.len()
    &&& pre.buckets@[i].priority == b.score
    &&& post.buckets@.len() == pre.buckets@.len()
    &&& forall|k: int|
        0 <= k < pre.buckets@.len() && k != i ==> post.buckets@[k] == pre.buckets@[k]
    &&& post.buckets@[i].priority == b.score
    &&& post.buckets@[i].boards@ == pre.buckets@[i].boards@.push(b)
}

/// The result shape of an insertion under a fresh score: a singleton
/// bucket appears at position `i`, and the old buckets keep their order
/// around it.
pub open spec fn inserted_new_bucket(pre: BoardStore, post: BoardStore, i: int, b: Board) -> bool {
    &&& 0 <= i <= pre.buckets@.len()
    &&& post.buckets@.len() == pre.buckets@.len() + 1
    &&& forall|k: int| 0 <= k < i ==> post.buckets@[k] == pre.buckets@[k]
    &&& forall|k: int| i < k < post.buckets@.len() ==> post.buckets@[k] == pre.buckets@[k - 1]
    &&& post.buckets@[i].priority == b.score
    &&& post.buckets@[i].boards@ == seq![b]
}

/// Inserts a board into the bucket of its score, creating the bucket if
/// the score is new; a board configuration-equal to one already in that
/// bucket is silently dropped, never replacing the resident entry.
pub fn add_entry(board: Board, board_collection: &mut BoardStore)
    requires
        old(board_collection).wf(),
    ensures
        final(board_collection).wf(),
        forall|b2: Board|
            #[trigger] final(board_collection).contains_board(b2)
                ==> old(board_collection).contains_board(b2) || b2 == board,
        forall|b2: Board|
            #[trigger] old(board_collection).contains_board(b2)
                ==> final(board_collection).contains_board(b2),
        final(board_collection).contains_cfg_scored(board.state@, board.score),
        old(board_collection).contains_cfg_scored(board.state@, board.score)
            ==> *final(board_collection) == *old(board_collection),
        !old(board_collection).contains_cfg_scored(board.state@, board.score)
            ==> final(board_collection).contains_board(board),
        !old(board_collection).contains_cfg_scored(board.state@, board.score) ==> (exists|i: int|
            #![auto]
            appended_in_bucket(*old(board_collection), *final(board_collection), i, board)
                || inserted_new_bucket(*old(board_collection), *final(board_collection), i, board)),
{
    let ghost pre = *board_collection;
    let sc = board.score;
    let idx = board_collection.find_bucket(sc);
    let blen = board_collection.buckets.len();
    if idx < blen && board_collection.buckets[idx].priority == sc {
        let dup = bucket_find(&board_collection.buckets[idx], &board);
        match dup {
            Option::Some(j) => {
                // an exact-configuration duplicate at this score: dropped
                proof {
                    assert(pre.buckets@[idx as int].boards@[j as int].state@ == board.state@);
                    assert(pre.buckets@[idx as int].boards@[j as int].score == sc);
                    assert(pre.contains_cfg_scored(board.state@, sc));
                }
            },
            Option::None => {
                let bref = bucket_mut(&mut board_collection.buckets, idx);
                bref.boards.push(board);
                proof {
                    let post = *board_collection;
                    assert(post.buckets@[idx as int].boards@ == pre.buckets@[
                    idx as int].boards@.push(board));
                    assert forall|b2: Board| post.contains_board(b2) implies pre.contains_board(
                        b2,
                    ) || b2 == board by {
                        let (i, j) = choose|i: int, j: int|
                            0 <= i < post.buckets@.len() && 0 <= j
                                < post.buckets@[i].boards@.len() && (
                            #[trigger] post.buckets@[i].boards@[j]) == b2;
                        if i == idx as int && j == pre.buckets@[idx as int].boards@.len() {
                        } else {
                            assert(pre.buckets@[i].boards@[j] == b2);
                        }
                    }
                    assert forall|b2: Board| pre.contains_board(b2) implies post.contains_board(
                        b2,
                    ) by {
                        let (i, j) = choose|i: int, j: int|
                            0 <= i < pre.buckets@.len() && 0 <= j < pre.buckets@[i].boards@.len()
                                && (#[trigger] pre.buckets@[i].boards@[j]) == b2;
                        assert(post.buckets@[i].boards@[j] == b2);
                    }
                    assert(post.buckets@[idx as int].boards@[pre.buckets@[
                    idx as int].boards@.len() as int] == board);
                    assert(post.contains_board(board));
                    assert(appended_in_bucket(pre, post, idx as int, board));
                    if pre.contains_cfg_scored(board.state@, sc) {
                        let (i, j) = choose|i: int, j: int|
                            0 <= i < pre.buckets@.len() && 0 <= j < pre.buckets@[i].boards@.len()
                                && (#[trigger] pre.buckets@[i].boards@[j]).state@ == board.state@
                                && pre.buckets@[i].boards@[j].score == sc;
                        assert(pre.buckets@[i].priority == sc);
                        if i < idx as int {
                            assert(pre.buckets@[i].priority < sc);
                        } else if i > idx as int {
                            assert(pre.buckets@[idx as int].priority < pre.buckets@[i].priority);
                        }
                        assert(false);
                    }
                }
            },
        }
    } else {
        let mut bvec: Vec<Board> = Vec::new();
        bvec.push(board);
        board_collection.buckets.insert(idx, Bucket { priority: sc, boards: bvec });
        proof {
            let post = *board_collection;
            assert(post.buckets@ == pre.buckets@.insert(idx as int, post.buckets@[idx as int]));
            assert(post.buckets@[idx as int].boards@.len() == 1);
            assert(post.buckets@[idx as int].boards@[0] == board);
            assert forall|i: int| 0 <= i < post.buckets@.len() implies (
            #[trigger] post.buckets@[i]) == (if i < idx as int {
                pre.buckets@[i]
            } else if i == idx as int {
                post.buckets@[idx as int]
            } else {
                pre.buckets@[i - 1]
            }) by {}
            assert forall|b2: Board| post.contains_board(b2) implies pre.contains_board(b2) || b2
                == board by {
                let (i, j) = choose|i: int, j: int|
                    0 <= i < post.buckets@.len() && 0 <= j < post.buckets@[i].boards@.len() && (
                    #[trigger] post.buckets@[i].boards@[j]) == b2;
                if i < idx as int {
                    assert(pre.buckets@[i].boards@[j] == b2);
                } else if i > idx as int {
                    assert(pre.buckets@[i - 1].boards@[j] == b2);
                }
            }
            assert forall|b2: Board| pre.contains_board(b2) implies post.contains_board(b2) by {
                let (i, j) = choose|i: int, j: int|
                    0 <= i < pre.buckets@.len() && 0 <= j < pre.buckets@[i].boards@.len() && (
                    #[trigger] pre.buckets@[i].boards@[j]) == b2;
                if i < idx as int {
                    assert(post.buckets@[i].boards@[j] == b2);
                } else {
                    assert(post.buckets@[i + 1].boards@[j] == b2);
                }
            }
            assert(post.contains_board(board));
            assert(post.buckets@[idx as int].boards@ =~= seq![board]);
            assert(inserted_new_bucket(pre, post, idx as int, board));
            if pre.contains_cfg_scored(board.state@, sc) {
                let (i, j) = choose|i: int, j: int|
                    0 <= i < pre.buckets@.len() && 0 <= j < pre.buckets@[i].boards@.len() && (
                    #[trigger] pre.buckets@[i].boards@[j]).state@ == board.state@
                        && pre.buckets@[i].boards@[j].score == sc;
                assert(pre.buckets@[i].priority == sc);
                if i < idx as int {
                    assert(pre.buckets@[i].priority < sc);
                } else {
                    assert(idx < blen);
                    assert(pre.buckets@[idx as int].priority > sc);
                    if i > idx as int {
                        assert(pre.buckets@[idx as int].priority < pre.buckets@[i].priority);
                    }
                }
                assert(false);
            }
        }
    }
}

/// Looks for a meeting: some freshly produced board whose configuration
/// already sits in the opposite side's frontier or explored store. On a
/// match it returns the new board's path and the resident board's path.
pub fn check_for_solution(
    new_moves: &Vec<Board>,
    frontier: &BoardStore,
    explored: &BoardStore,
) -> (r: Option<(Vec<Move>, Vec<Move>)>)
    ensures
        r matches Some(pair) ==> exists|x: Board, y: Board|
            #![auto]
            {
                &&& new_moves@.contains(x)
                &&& frontier.contains_board(y) || explored.contains_board(y)
                &&& y.state@ == x.state@
                &&& pair.0@ == x.m_list@
                &&& pair.1@ == y.m_list@
            },
        r matches Some(pair) ==> (exists|k: int|
            #![auto]
            {
                &&& 0 <= k < new_moves@.len()
                &&& forall|k2: int|
                    0 <= k2 < k ==> !frontier.contains_cfg((#[trigger] new_moves@[k2]).state@)
                        && !explored.contains_cfg(new_moves@[k2].state@)
                &&& pair.0@ == new_moves@[k].m_list@
                &&& frontier.contains_cfg(new_moves@[k].state@) ==> (exists|y: Board|
                    #![auto]
                    frontier.contains_board(y) && y.state@ == new_moves@[k].state@ && pair.1@
                        == y.m_list@)
                &&& !frontier.contains_cfg(new_moves@[k].state@) ==> (exists|y: Board|
                    #![auto]
                    explored.contains_board(y) && y.state@ == new_moves@[k].state@ && pair.1@
                        == y.m_list@)
            }),
        r is None ==> forall|k: int|
            0 <= k < new_moves@.len() ==> !frontier.contains_cfg(
                (#[trigger] new_moves@[k]).state@,
            ) && !explored.contains_cfg(new_moves@[k].state@),
{
    let n = new_moves.len();
    let mut bi: usize = 0;
    while bi < n
        invariant
            bi <= n,
            n == new_moves@.len(),
            forall|k: int|
                0 <= k < bi ==> !frontier.contains_cfg((#[trigger] new_moves@[k]).state@)
                    && !explored.contains_cfg(new_moves@[k].state@),
        decreases n - bi,
    {
        let board = &new_moves[bi];
        if let Option::Some((i, j)) = frontier.find_config(board) {
            let a = copy_moves(&board.m_list);
            let b = copy_moves(&frontier.buckets[i].boards[j].m_list);
            proof {
                let x = new_moves@[bi as int];
                let y = frontier.buckets@[i as int].boards@[j as int];
                assert(new_moves@.contains(x));
                assert(frontier.contains_board(y));
                assert(frontier.contains_cfg(x.state@));
            }
            return Option::Some((a, b));
        }
        if let Option::Some((i, j)) = explored.find_config(board) {
            let a = copy_moves(&board.m_list);
            let b = copy_moves(&explored.buckets[i].boards[j].m_list);
            proof {
                let x = new_moves@[bi as int];
                let y = explored.buckets@[i as int].boards@[j as int];
                assert(new_moves@.contains(x));
                assert(explored.contains_board(y));
                assert(!frontier.contains_cfg(x.state@));
            }
            return Option::Some((a, b));
        }
        bi += 1;
    }
    Option::None
}

/// Field-for-field equality of two boards, path, cost and score
/// included; the exec `==` compares configurations only, this compares
/// everything.
pub open spec fn same_board(a: Board, b: Board) -> bool {
    &&& a.size == b.size
    &&& a.state@ == b.state@
    &&& a.m_list@ == b.m_list@
    &&& a.cost == b.cost
    &&& a.score == b.score
}

/// Of the legal directions `ms` at configuration `s`, those whose child
/// configuration is not yet in the explored store at the score the
/// evaluator gives it: exactly the children one search step hands back.
pub open spec fn keep_unexplored(
    s: Seq<u8>,
    size: int,
    h: Heuristic,
    ex: BoardStore,
    ms: Seq<Move>,
) -> Seq<Move>
    decreases ms.len(),
{
    if ms.len() == 0 {
        Seq::<Move>::empty()
    } else {
        let rest = keep_unexplored(s, size, h, ex, ms.drop_last());
        let t = apply_move(s, size, ms.last());
        if ex.contains_cfg_scored(t, h.score_spec(t) as i32) {
            rest
        } else {
            rest.push(ms.last())
        }
    }
}

/// Every move kept by the filter is one of the candidate moves.
proof fn lemma_keep_unexplored_sub(
    s: Seq<u8>,
    size: int,
    h: Heuristic,
    ex: BoardStore,
    ms: Seq<Move>,
)
    ensures
        forall|j: int|
            0 <= j < keep_unexplored(s, size, h, ex, ms).len() ==> ms.contains(
                #[trigger] keep_unexplored(s, size, h, ex, ms)[j],
            ),
    decreases ms.len(),
{
    if ms.len() > 0 {
        lemma_keep_unexplored_sub(s, size, h, ex, ms.drop_last());
        let rest = keep_unexplored(s, size, h, ex, ms.drop_last());
        assert forall|j: int|
            0 <= j < keep_unexplored(s, size, h, ex, ms).len() implies ms.contains(
            #[trigger] keep_unexplored(s, size, h, ex, ms)[j],
        ) by {
            let m = keep_unexplored(s, size, h, ex, ms)[j];
            if j < rest.len() {
                assert(ms.drop_last().contains(m));
                let mi = choose|mi: int| 0 <= mi < ms.drop_last().len() && ms.drop_last()[mi] == m;
                assert(ms[mi] == m);
            } else {
                assert(m == ms.last());
                assert(ms[ms.len() - 1] == m);
            }
        }
    }
}

/// A configuration-and-score membership survives any store update that
/// keeps all old members.
proof fn lemma_cfg_scored_preserved(pre: BoardStore, post: BoardStore, cells: Seq<u8>, score: i32)
    requires
        pre.contains_cfg_scored(cells, score),
        forall|b2: Board| #[trigger] pre.contains_board(b2) ==> post.contains_board(b2),
    ensures
        post.contains_cfg_scored(cells, score),
{
    let (i, j) = choose|i: int, j: int|
        0 <= i < pre.buckets@.len() && 0 <= j < pre.buckets@[i].boards@.len() && (
        #[trigger] pre.buckets@[i].boards@[j]).state@ == cells && pre.buckets@[i].boards@[j].score
            == score;
    let y = pre.buckets@[i].boards@[j];
    assert(pre.contains_board(y));
    assert(post.contains_board(y));
    let (i2, j2) = choose|i2: int, j2: int|
        0 <= i2 < post.buckets@.len() && 0 <= j2 < post.buckets@[i2].boards@.len() && (
        #[trigger] post.buckets@[i2].boards@[j2]) == y;
    assert(post.buckets@[i2].boards@[j2].state@ == cells);
}

/// Keeps, in order, exactly the children whose configuration is not in
/// the explored store at their score: the survivors correspond one to
/// one to `keep_unexplored` over the parent's legal moves.
fn filter_unexplored(
    children: Vec<Board>,
    explored: &BoardStore,
    parent: Ghost<Board>,
    heuristics: &Heuristic,
) -> (r: Vec<Board>)
    requires
        explored.wf(),
        children@.len() == legal_moves(parent@.state@, parent@.size as int).len(),
        forall|k: int|
            0 <= k < children@.len() ==> child_ok(
                parent@,
                *heuristics,
                #[trigger] children@[k],
                legal_moves(parent@.state@, parent@.size as int)[k],
            ),
    ensures
        ({
            let kept = keep_unexplored(
                parent@.state@,
                parent@.size as int,
                *heuristics,
                *explored,
                legal_moves(parent@.state@, parent@.size as int),
            );
            &&& r@.len() == kept.len()
            &&& forall|k: int|
                0 <= k < r@.len() ==> child_ok(parent@, *heuristics, #[trigger] r@[k], kept[k])
        }),
{
    let ghost s = parent@.state@;
    let ghost size = parent@.size as int;
    let ghost lm = legal_moves(s, size);
    let ghost orig = children@;
    let mut rest = children;
    let mut out: Vec<Board> = Vec::new();
    while rest.len() > 0
        invariant
            explored.wf(),
            s == parent@.state@,
            size == parent@.size as int,
            lm == legal_moves(s, size),
            orig.len() == lm.len(),
            forall|k: int|
                0 <= k < orig.len() ==> child_ok(
                    parent@,
                    *heuristics,
                    #[trigger] orig[k],
                    lm[k],
                ),
            rest@.len() <= orig.len(),
            rest@ == orig.skip(orig.len() as int - rest@.len() as int),
            ({
                let i = orig.len() as int - rest@.len() as int;
                let kept_i = keep_unexplored(s, size, *heuristics, *explored, lm.take(i));
                &&& out@.len() == kept_i.len()
                &&& forall|k: int|
                    0 <= k < out@.len() ==> child_ok(
                        parent@,
                        *heuristics,
                        #[trigger] out@[k],
                        kept_i[k],
                    )
            }),
        decreases rest@.len(),
    {
        let ghost i = orig.len() as int - rest@.len() as int;
        proof {
            assert(rest@[0] == orig[i]);
        }
        let c = rest.remove(0);
        proof {
            assert(orig.skip(i).drop_first() =~= orig.skip(i + 1));
        }
        let dup = explored.contains(&c);
        proof {
            let t = apply_move(s, size, lm[i]);
            assert(c.state@ == t);
            assert(c.score as int == heuristics.score_spec(t));
            assert(heuristics.score_spec(t) as i32 == c.score);
            assert(lm.take(i + 1).drop_last() =~= lm.take(i));
            assert(lm.take(i + 1).last() == lm[i]);
            assert(keep_unexplored(s, size, *heuristics, *explored, lm.take(i + 1)) == (
            if explored.contains_cfg_scored(t, heuristics.score_spec(t) as i32) {
                keep_unexplored(s, size, *heuristics, *explored, lm.take(i))
            } else {
                keep_unexplored(s, size, *heuristics, *explored, lm.take(i)).push(lm[i])
            }));
        }
        if !dup {
            out.push(c);
        }
    }
    proof {
        assert(lm.take(lm.len() as int) =~= lm);
    }
    out
}

/// Carries `all_reach` across a store update whose new members are
/// either old members or themselves known to reach from the root.
proof fn lemma_all_reach_preserved(pre: BoardStore, post: BoardStore, root: Seq<u8>, size: int)
    requires
        pre.all_reach(root, size),
        forall|b2: Board|
            #[trigger] post.contains_board(b2) ==> pre.contains_board(b2) || reaches(
                root,
                size,
                b2,
            ),
    ensures
        post.all_reach(root, size),
{
    assert forall|i: int, j: int|
        0 <= i < post.buckets@.len() && 0 <= j < post.buckets@[i].boards@.len() implies reaches(
        root,
        size,
        #[trigger] post.buckets@[i].boards@[j],
    ) by {
        let b2 = post.buckets@[i].boards@[j];
        assert(post.contains_board(b2));
        if pre.contains_board(b2) {
            let (i2, j2) = choose|i2: int, j2: int|
                0 <= i2 < pre.buckets@.len() && 0 <= j2 < pre.buckets@[i2].boards@.len() && (
                #[trigger] pre.buckets@[i2].boards@[j2]) == b2;
            assert(reaches(root, size, pre.buckets@[i2].boards@[j2]));
        }
    }
}

/// One step of one search side: extract the best board from the
/// frontier, record it as explored, expand it, drop the children already
/// explored at their score, and insert the rest into the frontier. The
/// contract pins the step exactly: the popped board is the minimum and
/// leaves the frontier while nothing else does, the explored store gains
/// it and nothing else, and the result is precisely the popped board's
/// legal children not yet explored at their score, each of them present
/// in the frontier afterwards and provably reaching from the evaluator's
/// root.
pub fn perform_move(
    frontier: &mut BoardStore,
    explored: &mut BoardStore,
    heuristics: &Heuristic,
) -> (r: Vec<Board>)
    requires
        old(frontier).wf(),
        old(explored).wf(),
        heuristics.wf(),
        old(frontier).all_reach(
            heuristics.start_board.state@,
            heuristics.start_board.size as int,
        ),
        old(explored).all_reach(
            heuristics.start_board.state@,
            heuristics.start_board.size as int,
        ),
    ensures
        final(frontier).wf(),
        final(explored).wf(),
        final(frontier).all_reach(
            heuristics.start_board.state@,
            heuristics.start_board.size as int,
        ),
        final(explored).all_reach(
            heuristics.start_board.state@,
            heuristics.start_board.size as int,
        ),
        forall|k: int|
            0 <= k < r@.len() ==> reaches(
                heuristics.start_board.state@,
                heuristics.start_board.size as int,
                #[trigger] r@[k],
            ),
        old(frontier).buckets@.len() == 0 ==> *final(frontier) == *old(frontier)
            && *final(explored) == *old(explored) && r@.len() == 0,
        old(frontier).buckets@.len() > 0 ==> ({
            let popped = old(frontier).buckets@[0].boards@[0];
            &&& forall|b2: Board|
                #[trigger] old(frontier).contains_board(b2) ==> popped.score <= b2.score
            &&& !final(frontier).contains_board(popped)
            &&& forall|b2: Board|
                #[trigger] old(frontier).contains_board(b2) && b2 != popped
                    ==> final(frontier).contains_board(b2)
            &&& forall|b2: Board|
                #[trigger] final(frontier).contains_board(b2) ==> (old(
                    frontier,
                ).contains_board(b2) && b2 != popped) || (exists|j: int|
                    #![auto]
                    0 <= j < r@.len() && same_board(b2, r@[j]))
            &&& forall|j: int|
                0 <= j < r@.len() ==> final(frontier).contains_cfg_scored(
                    (#[trigger] r@[j]).state@,
                    r@[j].score,
                )
            &&& forall|b2: Board|
                #[trigger] old(explored).contains_board(b2) ==> final(explored).contains_board(b2)
            &&& forall|b2: Board|
                #[trigger] final(explored).contains_board(b2) ==> old(explored).contains_board(b2)
                    || b2 == popped
            &&& final(explored).contains_cfg_scored(popped.state@, popped.score)
        }),
        old(frontier).buckets@.len() > 0 && old(frontier).buckets@[0].boards@[0].cost < i32::MAX
            ==> ({
            let popped = old(frontier).buckets@[0].boards@[0];
            let kept_moves = keep_unexplored(
                popped.state@,
                popped.size as int,
                *heuristics,
                *final(explored),
                legal_moves(popped.state@, popped.size as int),
            );
            &&& r@.len() == kept_moves.len()
            &&& forall|j: int|
                0 <= j < r@.len() ==> child_ok(popped, *heuristics, #[trigger] r@[j], kept_moves[j])
        }),
        old(frontier).buckets@.len() > 0 && old(frontier).buckets@[0].boards@[0].cost == i32::MAX
            ==> r@.len() == 0,
{
    let ghost root = heuristics.start_board.state@;
    let ghost size = heuristics.start_board.size as int;
    let ghost pre_frontier = *frontier;
    let ghost pre_explored = *explored;
    let mut children: Vec<Board> = Vec::new();
    let popped = frontier.pop_min();
    proof {
        lemma_all_reach_preserved(pre_frontier, *frontier, root, size);
    }
    let ghost mid_frontier = *frontier;
    if let Option::Some(board) = popped {
        proof {
            assert(reaches(root, size, board));
        }
        let expandable = board.cost < i32::MAX;
        if expandable {
            children = board.expand(heuristics);
        }
        let ghost kept = board;
        add_entry(board, explored);
        proof {
            lemma_all_reach_preserved(pre_explored, *explored, root, size);
            assert(pre_frontier.contains_board(kept));
            assert(explored.contains_cfg_scored(kept.state@, kept.score));
        }
        if expandable {
            children = filter_unexplored(children, explored, Ghost(kept), heuristics);
            proof {
                let lm = legal_moves(kept.state@, kept.size as int);
                let km = keep_unexplored(
                    kept.state@,
                    kept.size as int,
                    *heuristics,
                    *explored,
                    lm,
                );
                lemma_keep_unexplored_sub(
                    kept.state@,
                    kept.size as int,
                    *heuristics,
                    *explored,
                    lm,
                );
                lemma_expand_children(kept.state@, kept.size as int);
                assert forall|j: int| 0 <= j < children@.len() implies reaches(
                    root,
                    size,
                    #[trigger] children@[j],
                ) && children@[j].m_list@.len() == kept.m_list@.len() + 1 by {
                    let m = km[j];
                    assert(child_ok(kept, *heuristics, children@[j], m));
                    assert(lm.contains(m));
                    let mi = choose|mi: int| 0 <= mi < lm.len() && lm[mi] == m;
                    assert(lm[mi] != Move::Stay);
                    assert(all_directional(children@[j].m_list@)) by {
                        assert(children@[j].m_list@ == kept.m_list@.push(m));
                        assert forall|i: int|
                            0 <= i < children@[j].m_list@.len() implies (
                        #[trigger] children@[j].m_list@[i]) != Move::Stay by {
                            if i < kept.m_list@.len() {
                                assert(kept.m_list@[i] != Move::Stay);
                            }
                        }
                    }
                    lemma_path_snoc(root, size, kept.m_list@, m);
                }
            }
            let n = children.len();
            let mut k: usize = 0;
            while k < n
                invariant
                    frontier.wf(),
                    frontier.all_reach(root, size),
                    n == children@.len(),
                    k <= n,
                    forall|j: int| 0 <= j < n ==> reaches(root, size, #[trigger] children@[j]),
                    forall|j: int|
                        0 <= j < n ==> (#[trigger] children@[j]).m_list@.len() == kept.m_list@.len()
                            + 1,
                    !frontier.contains_board(kept),
                    forall|b2: Board|
                        #[trigger] mid_frontier.contains_board(b2) ==> frontier.contains_board(b2),
                    forall|b2: Board|
                        #[trigger] frontier.contains_board(b2) ==> mid_frontier.contains_board(b2)
                            || (exists|j: int| #![auto] 0 <= j < k && same_board(b2, children@[j])),
                    forall|j: int|
                        0 <= j < k ==> frontier.contains_cfg_scored(
                            (#[trigger] children@[j]).state@,
                            children@[j].score,
                        ),
                decreases n - k,
            {
                let child = children[k].clone();
                proof {
                    assert(reaches(root, size, children@[k as int]));
                    assert(reaches(root, size, child));
                    assert(same_board(child, children@[k as int]));
                    assert(child != kept) by {
                        assert(child.m_list@.len() == kept.m_list@.len() + 1);
                    }
                }
                let ghost pre_step = *frontier;
                add_entry(child, frontier);
                proof {
                    lemma_all_reach_preserved(pre_step, *frontier, root, size);
                    assert forall|j: int|
                        0 <= j < k + 1 implies frontier.contains_cfg_scored(
                        (#[trigger] children@[j]).state@,
                        children@[j].score,
                    ) by {
                        if j < k {
                            lemma_cfg_scored_preserved(
                                pre_step,
                                *frontier,
                                children@[j].state@,
                                children@[j].score,
                            );
                        } else {
                            assert(frontier.contains_cfg_scored(child.state@, child.score));
                        }
                    }
                }
                k += 1;
            }
        }
    }
    children
}

/// The cap on search steps: the search itself has no native bound, so a
/// run that would otherwise wander forever is cut off and reported as
/// exhausted rather than looping.
pub const MAX_STEPS: usize = 1000000;

/// The bidirectional best-first search under an explicit step budget.
/// Two sides grow independently, one rooted at `start_board` and one at
/// `goal_board`, each with its own evaluator, frontier and explored
/// store; each step expands the best board of each side and checks the
/// fresh children against the opposite side. On a meeting, the answer is
/// the forward half-path followed by the backward half-path reversed
/// with every move inverted.
///
/// Returns the outcome and the number of steps consumed. `Some(moves)`
/// is a proven solution: replayed from `start_board`, the moves are all
/// directional, all legal, and end exactly at `goal_board`'s
/// configuration. Equal start and goal yield `Some` of the empty
/// sequence after zero steps. `None` comes only from exhausting the
/// whole budget without a meeting: the search has no native bound of its
/// own, so the caller chooses how much work a run may do.
pub fn solve_with_budget(start_board: &Board, goal_board: &Board, budget: usize) -> (r: (
    Option<Vec<Move>>,
    usize,
))
    requires
        start_board.wf(),
        goal_board.wf(),
        start_board.size == goal_board.size,
        start_board.m_list@.len() == 0,
        goal_board.m_list@.len() == 0,
        solvable(start_board.state@, start_board.size as int),
        solvable(goal_board.state@, goal_board.size as int),
    ensures
        r.0 matches Some(moves) ==> path_ok(start_board.state@, start_board.size as int, moves@)
            && apply_moves(start_board.state@, start_board.size as int, moves@)
            == goal_board.state@ && all_directional(moves@),
        start_board.state@ == goal_board.state@ ==> (r.0 matches Some(moves) && moves@.len() == 0
            && r.1 == 0),
        r.0 is None ==> r.1 == budget,
        r.1 <= budget,
{
    let ghost sroot = start_board.state@;
    let ghost groot = goal_board.state@;
    let ghost size = start_board.size as int;
    if start_board == goal_board {
        proof {
            assert(path_ok(sroot, size, Seq::<Move>::empty()));
            assert(apply_moves(sroot, size, Seq::<Move>::empty()) == sroot);
        }
        let empty_solution: Vec<Move> = Vec::new();
        return (Option::Some(empty_solution), 0);
    }

    // each side scores with an evaluator rooted at its own root
    let heuristics = Heuristic::new(start_board.clone());
    let backward_heuristics = Heuristic::new(goal_board.clone());

    let mut forward_frontier = BoardStore::new();
    let mut forward_explored = BoardStore::new();
    let mut backward_frontier = BoardStore::new();
    let mut backward_explored = BoardStore::new();

    let ghost empty_frontier = forward_frontier;
    add_entry(start_board.clone(), &mut forward_frontier);
    proof {
        assert(path_ok(sroot, size, start_board.m_list@));
        assert(apply_moves(sroot, size, start_board.m_list@) == sroot);
        lemma_all_reach_preserved(empty_frontier, forward_frontier, sroot, size);
    }
    let ghost empty_backward = backward_frontier;
    add_entry(goal_board.clone(), &mut backward_frontier);
    proof {
        assert(path_ok(groot, size, goal_board.m_list@));
        assert(apply_moves(groot, size, goal_board.m_list@) == groot);
        lemma_all_reach_preserved(empty_backward, backward_frontier, groot, size);
    }

    let mut solution: Vec<Move> = Vec::new();
    let mut forward_found = false;
    let mut backward_found = false;
    let mut steps: usize = 0;

    while !forward_found && !backward_found && steps < budget
        invariant
            heuristics.wf(),
            backward_heuristics.wf(),
            heuristics.start_board.state@ == sroot,
            heuristics.start_board.size as int == size,
            backward_heuristics.start_board.state@ == groot,
            backward_heuristics.start_board.size as int == size,
            forward_frontier.wf(),
            forward_explored.wf(),
            backward_frontier.wf(),
            backward_explored.wf(),
            forward_frontier.all_reach(sroot, size),
            forward_explored.all_reach(sroot, size),
            backward_frontier.all_reach(groot, size),
            backward_explored.all_reach(groot, size),
            forward_found || backward_found ==> path_ok(sroot, size, solution@) && apply_moves(
                sroot,
                size,
                solution@,
            ) == groot && all_directional(solution@),
            steps <= budget,
        decreases budget - steps,
    {
        steps += 1;
        let forward_moves = perform_move(&mut forward_frontier, &mut forward_explored, &heuristics);
        let backward_moves = perform_move(
            &mut backward_frontier,
            &mut backward_explored,
            &backward_heuristics,
        );

        let forward_solution = check_for_solution(
            &forward_moves,
            &backward_frontier,
            &backward_explored,
        );
        if let Option::Some(moves) = forward_solution {
            forward_found = true;
            let ghost xy = choose|x: Board, y: Board|
                #![auto]
                {
                    &&& forward_moves@.contains(x)
                    &&& backward_frontier.contains_board(y) || backward_explored.contains_board(y)
                    &&& y.state@ == x.state@
                    &&& moves.0@ == x.m_list@
                    &&& moves.1@ == y.m_list@
                };
            let ghost x = xy.0;
            let ghost y = xy.1;
            proof {
                let k = choose|k: int|
                    0 <= k < forward_moves@.len() && forward_moves@[k] == x;
                assert(reaches(sroot, size, forward_moves@[k]));
                if backward_frontier.contains_board(y) {
                    let (i, j) = choose|i: int, j: int|
                        0 <= i < backward_frontier.buckets@.len() && 0 <= j
                            < backward_frontier.buckets@[i].boards@.len() && (
                        #[trigger] backward_frontier.buckets@[i].boards@[j]) == y;
                    assert(reaches(groot, size, backward_frontier.buckets@[i].boards@[j]));
                } else {
                    let (i, j) = choose|i: int, j: int|
                        0 <= i < backward_explored.buckets@.len() && 0 <= j
                            < backward_explored.buckets@[i].boards@.len() && (
                        #[trigger] backward_explored.buckets@[i].boards@[j]) == y;
                    assert(reaches(groot, size, backward_explored.buckets@[i].boards@[j]));
                }
                lemma_path_roundtrip(groot, size, y.m_list@);
                lemma_path_concat(sroot, size, x.m_list@, invert_path(y.m_list@));
            }
            let (mut sol, rest) = moves;
            let n2 = rest.len();
            let mut k: usize = 0;
            while k < n2
                invariant
                    n2 == rest@.len(),
                    rest@ == y.m_list@,
                    k <= n2,
                    sol@ == x.m_list@ + invert_path(y.m_list@).take(k as int),
                decreases n2 - k,
            {
                let m = rest[n2 - 1 - k];
                sol.push(m.invert());
                proof {
                    assert(sol@ =~= x.m_list@ + invert_path(y.m_list@).take(k as int + 1));
                }
                k += 1;
            }
            proof {
                assert(invert_path(y.m_list@).take(n2 as int) =~= invert_path(y.m_list@));
                assert(sol@ == x.m_list@ + invert_path(y.m_list@));
                assert forall|i: int| 0 <= i < sol@.len() implies (#[trigger] sol@[i])
                    != Move::Stay by {
                    if i < x.m_list@.len() {
                        assert(x.m_list@[i] != Move::Stay);
                    } else {
                        let j = i - x.m_list@.len();
                        let m = y.m_list@[y.m_list@.len() - 1 - j];
                        assert(m != Move::Stay);
                        assert(sol@[i] == invert_path(y.m_list@)[j]);
                        assert(invert_path(y.m_list@)[j] == m.inverse());
                    }
                }
            }
            solution = sol;
        }

        let backward_solution = check_for_solution(
            &backward_moves,
            &forward_frontier,
            &forward_explored,
        );
        if let Option::Some(moves) = backward_solution {
            backward_found = true;
            let ghost xy = choose|x: Board, y: Board|
                #![auto]
                {
                    &&& backward_moves@.contains(x)
                    &&& forward_frontier.contains_board(y) || forward_explored.contains_board(y)
                    &&& y.state@ == x.state@
                    &&& moves.0@ == x.m_list@
                    &&& moves.1@ == y.m_list@
                };
            let ghost x = xy.0;
            let ghost y = xy.1;
            proof {
                let k = choose|k: int|
                    0 <= k < backward_moves@.len() && backward_moves@[k] == x;
                assert(reaches(groot, size, backward_moves@[k]));
                if forward_frontier.contains_board(y) {
                    let (i, j) = choose|i: int, j: int|
                        0 <= i < forward_frontier.buckets@.len() && 0 <= j
                            < forward_frontier.buckets@[i].boards@.len() && (
                        #[trigger] forward_frontier.buckets@[i].boards@[j]) == y;
                    assert(reaches(sroot, size, forward_frontier.buckets@[i].boards@[j]));
                } else {
                    let (i, j) = choose|i: int, j: int|
                        0 <= i < forward_explored.buckets@.len() && 0 <= j
                            < forward_explored.buckets@[i].boards@.len() && (
                        #[trigger] forward_explored.buckets@[i].boards@[j]) == y;
                    assert(reaches(sroot, size, forward_explored.buckets@[i].boards@[j]));
                }
                lemma_path_roundtrip(groot, size, x.m_list@);
                lemma_path_concat(sroot, size, y.m_list@, invert_path(x.m_list@));
            }
            let (rest, mut sol) = moves;
            let n2 = rest.len();
            let mut k: usize = 0;
            while k < n2
                invariant
                    n2 == rest@.len(),
                    rest@ == x.m_list@,
                    k <= n2,
                    sol@ == y.m_list@ + invert_path(x.m_list@).take(k as int),
                decreases n2 - k,
            {
                let m = rest[n2 - 1 - k];
                sol.push(m.invert());
                proof {
                    assert(sol@ =~= y.m_list@ + invert_path(x.m_list@).take(k as int + 1));
                }
                k += 1;
            }
            proof {
                assert(invert_path(x.m_list@).take(n2 as int) =~= invert_path(x.m_list@));
                assert(sol@ == y.m_list@ + invert_path(x.m_list@));
                assert forall|i: int| 0 <= i < sol@.len() implies (#[trigger] sol@[i])
                    != Move::Stay by {
                    if i < y.m_list@.len() {
                        assert(y.m_list@[i] != Move::Stay);
                    } else {
                        let j = i - y.m_list@.len();
                        let m = x.m_list@[x.m_list@.len() - 1 - j];
                        assert(m != Move::Stay);
                        assert(sol@[i] == invert_path(x.m_list@)[j]);
                        assert(invert_path(x.m_list@)[j] == m.inverse());
                    }
                }
            }
            solution = sol;
        }
    }

    if forward_found || backward_found {
        (Option::Some(solution), steps)
    } else {
        (Option::None, steps)
    }
}

/// The bidirectional search under the default step budget `MAX_STEPS`.
/// `Some(moves)` is a proven solution as in `solve_with_budget`; equal
/// start and goal yield `Some` of the empty sequence with no expansion
/// at all; `None` reports that the default budget was exhausted without
/// a meeting.
pub fn bidirectional_solver(start_board: &Board, goal_board: &Board) -> (r: Option<Vec<Move>>)
    requires
        start_board.wf(),
        goal_board.wf(),
        start_board.size == goal_board.size,
        start_board.m_list@.len() == 0,
        goal_board.m_list@.len() == 0,
        solvable(start_board.state@, start_board.size as int),
        solvable(goal_board.state@, goal_board.size as int),
    ensures
        r matches Some(moves) ==> path_ok(start_board.state@, start_board.size as int, moves@)
            && apply_moves(start_board.state@, start_board.size as int, moves@)
            == goal_board.state@ && all_directional(moves@),
        start_board.state@ == goal_board.state@ ==> (r matches Some(moves) && moves@.len() == 0),
{
    let (solution, _steps) = solve_with_budget(start_board, goal_board, MAX_STEPS);
    solution
}

} // verus!
