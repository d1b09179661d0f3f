//! The puzzle generator: a randomized variant of the backtracking solver
//! builds one full valid board, and hole-digging then removes random cells
//! one at a time, keeping a removal only when the board still has exactly
//! one completion.

use rand::seq::SliceRandom;
use rand::Rng;
use vstd::pervasive::VecAdditionalExecFns;
use vstd::prelude::*;

use crate::grid::Sudoku;
use crate::laws::{
    lemma_empty_board_valid, lemma_legal_place_preserves_valid, lemma_remove_place_round_trip,
    lemma_remove_preserves_valid,
};
use crate::model::{
    candidates, cap2, completion_of, empty_board, extends, grid_full, grid_valid,
    lemma_completion_after_place, lemma_completion_value_legal, lemma_first_empty_from,
    legal_prefix, lemma_legal_prefix, lemma_no_candidates_unsolvable, lemma_num_empty_update,
    lemma_solution_count_full, legal_at, num_empty, solution_count, solvable,
};
use crate::tile::{lemma_tile_list_contains, tile_list, Mode, Tile};

verus! {

/// Relies on rand's `SliceRandom::shuffle` with `thread_rng`: it reorders
/// the slice in place by swaps, so the vector afterwards holds exactly the
/// tiles it held before, in some order. Nothing more holds of a random
/// permutation.
#[verifier::external_body]
fn shuffle_tiles(v: &mut Vec<Tile>)
    ensures
        final(v)@.to_multiset() == old(v)@.to_multiset(),
        final(v)@.len() == old(v)@.len(),
{
    v.as_mut_slice().shuffle(&mut rand::thread_rng());
}

/// Relies on rand's `Rng::gen_range` with `thread_rng`: a cell index drawn
/// uniformly from the non-empty range `[0, 81)`. Nothing beyond the bound
/// holds of a random draw.
#[verifier::external_body]
fn random_cell() -> (r: usize)
    ensures
        r < 81,
{
    rand::thread_rng().gen_range(0..81)
}

impl Sudoku {
    /// Randomized completion: the same exhaustive backtracking as `solve`,
    /// except that the candidate list of each decision point is shuffled
    /// before being tried, so repeated runs from the same board reach
    /// different completions.
    ///
    /// Returns true exactly when a completion exists; on success the board
    /// is a full extension of its old state, valid whenever the old state
    /// was valid, and on failure the board is left exactly as it was.
    pub fn fill_board(&mut self) -> (r: bool)
        requires
            old(self).wf(),
        ensures
            final(self).wf(),
            final(self).count == old(self).count,
            !r ==> final(self).board@ == old(self).board@,
            !r ==> !solvable(old(self).board@),
            r ==> grid_full(final(self).board@),
            r ==> extends(old(self).board@, final(self).board@),
            r && grid_valid(old(self).board@) ==> grid_valid(final(self).board@),
            grid_full(old(self).board@) ==> r && final(self).board@ == old(self).board@,
        decreases num_empty(old(self).board@),
    {
        let ghost s0 = self.board@;
        proof {
            lemma_first_empty_from(s0, 0);
        }
        let empty_tile = match self.find_empty() {
            Some(num) => num,
            None => {
                return true;
            },
        };
        proof {
            assert(s0[empty_tile as int] == Tile::Empty);
            assert(!grid_full(s0));
        }
        let mut legal_moves = match self.gen_legal_moves(empty_tile) {
            Some(moves) => moves,
            None => {
                proof {
                    lemma_no_candidates_unsolvable(s0, empty_tile as int);
                }
                return false;
            },
        };
        shuffle_tiles(&mut legal_moves);
        let ghost e = empty_tile as int;
        let ghost cands = candidates(s0, e);
        let ghost order = legal_moves@;
        proof {
            cands.to_multiset_ensures();
            order.to_multiset_ensures();
            lemma_legal_prefix(s0, e, 9);
            assert forall|m: int| 0 <= m < order.len() implies (#[trigger] order[m])
                != Tile::Empty && legal_at(s0, order[m], e) by {
                assert(order.to_multiset().count(order[m]) > 0);
                assert(cands.contains(order[m]));
                let mm = choose|mm: int| 0 <= mm < cands.len() && cands[mm] == order[m];
                assert(legal_prefix(s0, e, 9)[mm] != Tile::Empty);
            }
        }
        let ghost c0 = self.count;
        let mut k: usize = 0;
        while k < legal_moves.len()
            invariant
                self.wf(),
                self.board@ == s0,
                self.count == c0,
                s0 == old(self).board@,
                c0 == old(self).count,
                s0.len() == 81,
                e == empty_tile as int,
                0 <= e < 81,
                s0[e] == Tile::Empty,
                legal_moves@ == order,
                cands == candidates(s0, e),
                order.to_multiset() == cands.to_multiset(),
                forall|m: int|
                    0 <= m < order.len() ==> (#[trigger] order[m]) != Tile::Empty && legal_at(
                        s0,
                        order[m],
                        e,
                    ),
                k <= order.len(),
                forall|m: int| 0 <= m < k ==> !solvable(#[trigger] s0.update(e, order[m])),
            decreases order.len() - k,
        {
            let t = legal_moves[k];
            proof {
                lemma_num_empty_update(s0, e, t, 81);
            }
            let _ = self.place_tile(t, empty_tile);
            proof {
                assert(self.board@ == s0.update(e, t));
                if grid_valid(s0) {
                    lemma_legal_place_preserves_valid(s0, t, e);
                }
            }
            if self.fill_board() {
                proof {
                    assert forall|x: int|
                        0 <= x < 81 && s0[x] != Tile::Empty implies self.board@[x] == s0[x] by {
                        assert(s0.update(e, t)[x] == s0[x]);
                    }
                }
                return true;
            }
            let _ = self.remove_tile(empty_tile);
            proof {
                assert(self.board@ =~= s0);
                assert(!solvable(s0.update(e, order[k as int])));
            }
            k += 1;
        }
        proof {
            if solvable(s0) {
                let b = choose|b: Seq<Tile>| completion_of(s0, b);
                lemma_completion_value_legal(s0, b, e);
                lemma_tile_list_contains(b[e]);
                let d = choose|d: int| 0 <= d < tile_list().len() && tile_list()[d] == b[e];
                lemma_legal_prefix(s0, e, 9);
                assert(cands.contains(tile_list()[d]));
                cands.to_multiset_ensures();
                order.to_multiset_ensures();
                assert(cands.to_multiset().count(b[e]) > 0);
                assert(order.contains(b[e]));
                let m = choose|m: int| 0 <= m < order.len() && order[m] == b[e];
                lemma_completion_after_place(s0, b, e, b[e]);
                assert(completion_of(s0.update(e, order[m]), b));
                assert(false);
            }
        }
        false
    }

    /// Generate a puzzle for the requested difficulty: clear the board,
    /// fill it with the randomized solver, then spend the difficulty's
    /// budget of attempts picking a uniformly random cell and removing its
    /// digit, keeping the removal only when the uniqueness-counting search
    /// still reports exactly one completion.
    ///
    /// Picks are independent draws with repetition: an attempt that lands
    /// on an already-empty cell spends budget and changes nothing, so the
    /// number of cells actually emptied varies from run to run. Whatever
    /// the draws, the result is a valid board that is solvable and has
    /// exactly one completion: the randomized fill always succeeds, since
    /// the empty board is proved solvable.
    pub fn gen_board(&mut self, mode: Mode)
        requires
            old(self).wf(),
        ensures
            final(self).wf(),
            grid_valid(final(self).board@),
            solution_count(final(self).board@) == 1,
            solvable(final(self).board@),
            final(self).count == old(self).count || 0 <= final(self).count <= 2,
    {
        let attempts: usize = match mode {
            Mode::Easy => 300,
            Mode::Medium => 500,
            Mode::Hard => 700,
        };
        let mut board: Vec<Tile> = Vec::new();
        while board.len() < 81
            invariant
                board@.len() <= 81,
                forall|j: int| 0 <= j < board@.len() ==> board@[j] == Tile::Empty,
            decreases 81 - board@.len(),
        {
            board.push(Tile::Empty);
        }
        self.board = board;
        proof {
            assert(self.board@ =~= empty_board());
            lemma_empty_board_valid();
        }
        let filled = self.fill_board();
        proof {
            crate::laws::lemma_empty_board_solvable();
            assert(filled);
            lemma_solution_count_full(self.board@);
        }
        // A removal that was rejected once can never be accepted later:
        // every further kept removal only adds holes, and a board with
        // more holes has every completion the denser board had, so the
        // recheck would find at least the same two completions and reject
        // again. Remembering rejected cells therefore skips recomputing a
        // result that cannot change, and the board ends in exactly the
        // state the plain recheck would leave.
        let mut rejected: Vec<bool> = Vec::with_capacity(81);
        while rejected.len() < 81
            invariant
                rejected@.len() <= 81,
            decreases 81 - rejected@.len(),
        {
            rejected.push(false);
        }
        let mut a: usize = 0;
        while a < attempts
            invariant
                self.wf(),
                grid_valid(self.board@),
                solution_count(self.board@) == 1,
                self.count == old(self).count || 0 <= self.count <= 2,
                rejected@.len() == 81,
            decreases attempts - a,
        {
            let cord = random_cell();
            if !matches!(self.board[cord], Tile::Empty) && !rejected[cord] {
                let ghost s_pre = self.board@;
                let deleted = match self.remove_tile(cord) {
                    Ok(tv) => tv,
                    Err(_) => {
                        proof {
                            assert(false);
                        }
                        Tile::Empty
                    },
                };
                let ghost s_removed = self.board@;
                proof {
                    lemma_remove_preserves_valid(s_pre, cord as int);
                    assert(s_removed[cord as int] == Tile::Empty);
                    assert(!grid_full(s_removed));
                }
                self.count = 0;
                let _ = self.check_board();
                proof {
                    assert(self.count == cap2(solution_count(s_removed) as int));
                }
                if self.count != 1 {
                    let _ = self.place_tile(deleted, cord);
                    proof {
                        lemma_remove_place_round_trip(s_pre, cord as int);
                        assert(self.board@ == s_pre);
                    }
                    rejected.set(cord, true);
                }
            }
            a += 1;
        }
        proof {
            crate::laws::lemma_count_pos_solvable(self.board@);
        }
    }
}

} // verus!
