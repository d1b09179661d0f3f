//! The deterministic exhaustive backtracking solver: it fills the first
//! empty cell with each legal candidate in enumeration order, recurses,
//! and undoes the placement on every failing branch. It succeeds if and
//! only if the board has a completion.

use vstd::prelude::*;

use crate::grid::Sudoku;
use crate::laws::lemma_legal_place_preserves_valid;
use crate::model::{
    cand_sum, candidates, canonical_completion, canonical_step, cap2, completion_of, extends,
    first_empty_from, grid_full, grid_valid, lemma_cand_sum_step, lemma_canonical_walk,
    lemma_completion_after_place, lemma_completion_value_legal, lemma_first_empty_from,
    lemma_cell_split, lemma_dead_cell_count_zero, lemma_legal_prefix, lemma_legal_prefix_ord,
    lemma_no_candidates_unsolvable, lemma_num_empty_update, lemma_num_empty_zero,
    lemma_solution_count_full,
    lemma_solution_count_unfold, legal_at, legal_prefix, num_empty, solution_count, solvable,
};
use crate::tile::{index_tile, lemma_tile_list_contains, lemma_tile_list_ord, tile_list, tile_ord, Tile};

verus! {

impl Sudoku {
    /// Solve the board in place by exhaustive backtracking, trying the
    /// candidates of each cell in fixed enumeration order, so that the same
    /// partial board always converges to the same completion.
    ///
    /// Returns true exactly when a completion exists. On success the board
    /// holds a full extension of its old state, valid whenever the old
    /// state was valid, and on a valid board it is exactly the canonical
    /// completion that the fixed candidate order converges to; on failure
    /// the board is left exactly as it was, and no completion of it exists.
    /// An already-full board is returned unchanged at once.
    pub fn solve(&mut self) -> (r: bool)
        requires
            old(self).wf(),
        ensures
            final(self).wf(),
            final(self).count == old(self).count,
            !r ==> final(self).board@ == old(self).board@,
            !r ==> !solvable(old(self).board@),
            r ==> grid_full(final(self).board@),
            r ==> extends(old(self).board@, final(self).board@),
            r && grid_valid(old(self).board@) ==> grid_valid(final(self).board@),
            r && grid_valid(old(self).board@) ==> final(self).board@ == canonical_completion(
                old(self).board@,
            ),
            grid_full(old(self).board@) ==> r && final(self).board@ == old(self).board@,
        decreases num_empty(old(self).board@),
    {
        let ghost s0 = self.board@;
        proof {
            lemma_first_empty_from(s0, 0);
        }
        let empty_tile = match self.find_empty() {
            Some(num) => num,
            None => {
                proof {
                    lemma_num_empty_zero(s0, 81);
                }
                return true;
            },
        };
        proof {
            assert(s0[empty_tile as int] == Tile::Empty);
            assert(!grid_full(s0));
        }
        let legal_moves = match self.gen_legal_moves(empty_tile) {
            Some(moves) => moves,
            None => {
                proof {
                    lemma_no_candidates_unsolvable(s0, empty_tile as int);
                }
                return false;
            },
        };
        let ghost e = empty_tile as int;
        let ghost cands = candidates(s0, e);
        let ghost c0 = self.count;
        let mut k: usize = 0;
        while k < legal_moves.len()
            invariant
                self.wf(),
                self.board@ == s0,
                self.count == c0,
                s0 == old(self).board@,
                c0 == old(self).count,
                s0.len() == 81,
                e == empty_tile as int,
                0 <= e < 81,
                s0[e] == Tile::Empty,
                e == first_empty_from(s0, 0),
                legal_moves@ == cands,
                cands == candidates(s0, e),
                k <= legal_moves@.len(),
                forall|m: int|
                    0 <= m < k ==> !solvable(#[trigger] s0.update(e, cands[m])),
            decreases legal_moves@.len() - k,
        {
            let t = legal_moves[k];
            proof {
                lemma_legal_prefix(s0, e, 9);
                assert(legal_prefix(s0, e, 9)[k as int] != Tile::Empty);
                assert(legal_at(s0, t, e));
                lemma_num_empty_update(s0, e, t, 81);
            }
            let _ = self.place_tile(t, empty_tile);
            proof {
                assert(self.board@ == s0.update(e, t));
                if grid_valid(s0) {
                    lemma_legal_place_preserves_valid(s0, t, e);
                }
            }
            if self.solve() {
                proof {
                    assert forall|x: int|
                        0 <= x < 81 && s0[x] != Tile::Empty implies self.board@[x] == s0[x] by {
                        assert(s0.update(e, t)[x] == s0[x]);
                    }
                    if grid_valid(s0) {
                        lemma_legal_prefix(s0, e, 9);
                        lemma_legal_prefix_ord(s0, e, 9);
                        lemma_tile_list_contains(t);
                        let dw = choose|dw: int|
                            0 <= dw < tile_list().len() && tile_list()[dw] == t;
                        lemma_tile_list_ord(dw);
                        let dt = tile_ord(t);
                        assert(tile_list()[dt] == t);
                        assert(tile_ord(legal_prefix(s0, e, 9)[k as int]) == dt);
                        assert(completion_of(s0.update(e, t), self.board@));
                        assert forall|d: int|
                            0 <= d < dt implies !(legal_at(s0, tile_list()[d], e) && solvable(
                            s0.update(e, #[trigger] tile_list()[d]))) by {
                            if legal_at(s0, tile_list()[d], e) {
                                assert(cands.contains(tile_list()[d]));
                                let m = choose|m: int|
                                    0 <= m < cands.len() && cands[m] == tile_list()[d];
                                lemma_tile_list_ord(d);
                                assert(tile_ord(legal_prefix(s0, e, 9)[m]) == d);
                                if m > k as int {
                                    assert(tile_ord(legal_prefix(s0, e, 9)[k as int]) < tile_ord(
                                        legal_prefix(s0, e, 9)[m]));
                                    assert(false);
                                }
                                if m == k as int {
                                    assert(false);
                                }
                                assert(!solvable(s0.update(e, cands[m])));
                            }
                        }
                        lemma_canonical_walk(s0, e, 0, dt);
                        lemma_num_empty_zero(s0, 81);
                        assert(num_empty(s0) > 0);
                        assert(canonical_completion(s0) == canonical_step(s0, e, 0));
                        assert(canonical_step(s0, e, dt) == canonical_completion(
                            s0.update(e, t)));
                    }
                }
                return true;
            }
            let _ = self.remove_tile(empty_tile);
            proof {
                assert(self.board@ =~= s0);
                assert(!solvable(s0.update(e, cands[k as int])));
            }
            k += 1;
        }
        proof {
            if solvable(s0) {
                let b = choose|b: Seq<Tile>| completion_of(s0, b);
                lemma_completion_value_legal(s0, b, e);
                lemma_tile_list_contains(b[e]);
                let d = choose|d: int|
                    0 <= d < tile_list().len() && tile_list()[d] == b[e];
                lemma_legal_prefix(s0, e, 9);
                assert(cands.contains(tile_list()[d]));
                let m = choose|m: int| 0 <= m < cands.len() && cands[m] == tile_list()[d];
                lemma_completion_after_place(s0, b, e, b[e]);
                assert(completion_of(s0.update(e, cands[m]), b));
                assert(solvable(s0.update(e, cands[m])));
                assert(false);
            }
        }
        false
    }

    /// Uniqueness counting: the same backtracking search, but a reached
    /// completion adds one to `count` and the branch is treated as failed,
    /// so the search goes on to look for further completions. The tally
    /// saturates at two, since a uniqueness check only needs to know
    /// whether the count is exactly one; the board is always restored.
    ///
    /// Callers reset `count` to zero immediately before each run; the
    /// counter must never be read across runs without such a reset. On a
    /// board that is already full the search returns true at once and the
    /// counter is not touched.
    pub fn check_board(&mut self) -> (r: bool)
        requires
            old(self).wf(),
            0 <= old(self).count <= 2,
        ensures
            final(self).wf(),
            final(self).board@ == old(self).board@,
            r == grid_full(old(self).board@),
            r ==> final(self).count == old(self).count,
            !r ==> final(self).count == cap2(old(self).count + solution_count(old(self).board@)),
            0 <= final(self).count <= 2,
    {
        self.count_completions(0)
    }

    /// The recursive worker behind `check_board`. Every cell below `start`
    /// is known to be filled, so the scan for the first empty cell resumes
    /// there instead of rescanning the filled prefix; the cell it selects
    /// is exactly the one the scan from zero would select.
    fn count_completions(&mut self, start: usize) -> (r: bool)
        requires
            old(self).wf(),
            0 <= old(self).count <= 2,
            start <= 81,
            forall|j: int| 0 <= j < start ==> old(self).board@[j] != Tile::Empty,
        ensures
            final(self).wf(),
            final(self).board@ == old(self).board@,
            r == grid_full(old(self).board@),
            r ==> final(self).count == old(self).count,
            !r ==> final(self).count == cap2(old(self).count + solution_count(old(self).board@)),
            0 <= final(self).count <= 2,
        decreases num_empty(old(self).board@),
    {
        let ghost s0 = self.board@;
        let ghost c0 = self.count;
        proof {
            crate::model::lemma_first_empty_prefix(s0, start as int);
            lemma_first_empty_from(s0, 0);
        }
        let empty_tile = match self.find_empty_from(start) {
            Some(num) => num,
            None => {
                proof {
                    assert(grid_full(s0));
                }
                return true;
            },
        };
        proof {
            assert(s0[empty_tile as int] == Tile::Empty);
            assert(!grid_full(s0));
            lemma_num_empty_zero(s0, 81);
            lemma_solution_count_unfold(s0);
        }
        let legal_moves = match self.gen_legal_moves(empty_tile) {
            Some(moves) => moves,
            None => {
                proof {
                    assert(candidates(s0, empty_tile as int).len() == 0);
                    assert(solution_count(s0) == 0);
                }
                return false;
            },
        };
        let ghost e = empty_tile as int;
        let ghost cands = candidates(s0, e);
        proof {
            assert(cands.skip(0) =~= cands);
        }
        // Placing at the first empty cell completes the board exactly when
        // no second empty cell lies beyond it; settle that once for the
        // whole candidate loop instead of rescanning per placement.
        proof {
            lemma_first_empty_from(s0, e + 1);
        }
        let completes = match self.find_empty_from(empty_tile + 1) {
            Some(_) => false,
            None => true,
        };
        let mut k: usize = 0;
        while k < legal_moves.len()
            invariant
                self.wf(),
                self.board@ == s0,
                s0 == old(self).board@,
                c0 == old(self).count,
                0 <= c0 <= 2,
                0 <= self.count <= 2,
                s0.len() == 81,
                e == empty_tile as int,
                0 <= e < 81,
                s0[e] == Tile::Empty,
                e == first_empty_from(s0, 0),
                completes == (first_empty_from(s0, e + 1) == 81),
                legal_moves@ == cands,
                cands == candidates(s0, e),
                k <= legal_moves@.len(),
                solution_count(s0) == cand_sum(s0, e, cands),
                cap2(self.count + cand_sum(s0, e, cands.skip(k as int)))
                    == cap2(c0 + solution_count(s0)),
            decreases legal_moves@.len() - k,
        {
            if self.count < 2 {
                let t = legal_moves[k];
                proof {
                    lemma_legal_prefix(s0, e, 9);
                    assert(legal_prefix(s0, e, 9)[k as int] != Tile::Empty);
                    lemma_num_empty_update(s0, e, t, 81);
                    lemma_cand_sum_step(s0, e, cands, k as int);
                    lemma_first_empty_from(s0, 0);
                    lemma_first_empty_from(s0, e + 1);
                }
                let _ = self.place_tile(t, empty_tile);
                proof {
                    assert(self.board@ == s0.update(e, t));
                    if completes {
                        assert forall|x: int| 0 <= x < 81 implies s0.update(e, t)[x]
                            != Tile::Empty by {
                            if x < e {
                                assert(s0[x] != Tile::Empty);
                            } else if x > e {
                                assert(s0[x] != Tile::Empty);
                            }
                        }
                        assert(grid_full(s0.update(e, t)));
                    } else {
                        let xe = first_empty_from(s0, e + 1);
                        assert(s0.update(e, t)[xe] == Tile::Empty);
                        assert(!grid_full(s0.update(e, t)));
                    }
                }
                if completes {
                    self.count = self.count + 1;
                    let _ = self.remove_tile(empty_tile);
                    proof {
                        assert(self.board@ =~= s0);
                        lemma_solution_count_full(s0.update(e, t));
                    }
                } else if self.has_dead_peer(empty_tile) {
                    // The placement left some empty cell with no candidate:
                    // that branch provably tallies zero, so it need not be
                    // explored at all.
                    proof {
                        let dead = choose|dc: int|
                            0 <= dc < 81 && self.board@[dc] == Tile::Empty && candidates(
                                self.board@,
                                dc,
                            ).len() == 0;
                        lemma_dead_cell_count_zero(s0.update(e, t), dead);
                    }
                    let _ = self.remove_tile(empty_tile);
                    proof {
                        assert(self.board@ =~= s0);
                    }
                } else {
                    let _ = self.count_completions(empty_tile + 1);
                    let _ = self.remove_tile(empty_tile);
                    proof {
                        assert(self.board@ =~= s0);
                    }
                }
            } else {
                proof {
                    lemma_cand_sum_step(s0, e, cands, k as int);
                }
            }
            k += 1;
        }
        proof {
            assert(cands.skip(cands.len() as int) =~= Seq::<Tile>::empty());
            assert(cand_sum(s0, e, cands.skip(cands.len() as int)) == 0);
        }
        false
    }

    /// Whether some empty cell sharing a row, column or box with `e` has
    /// no legal candidate left. Placing a digit can only strip candidates
    /// from the cells of its own groups, so checking the peers of each
    /// placement catches every dead cell as it arises. A `true` answer
    /// carries the dead cell as evidence; a `false` answer claims nothing,
    /// so the counting search may use this as a pure branch cut.
    fn has_dead_peer(&self, e: usize) -> (r: bool)
        requires
            self.wf(),
            e < 81,
        ensures
            r ==> exists|c: int|
                0 <= c < 81 && self.board@[c] == Tile::Empty && candidates(
                    self.board@,
                    c,
                ).len() == 0,
    {
        proof {
            lemma_cell_split(e as int);
        }
        let row: usize = e / 9;
        let column: usize = e % 9;
        let mut j: usize = 0;
        while j < 9
            invariant
                self.wf(),
                e < 81,
                row == e / 9,
                column == e % 9,
                row <= 8,
                column <= 8,
                j <= 9,
            decreases 9 - j,
        {
            let c1 = 9 * row + j;
            if matches!(self.board[c1], Tile::Empty) && self.cell_is_dead(c1) {
                return true;
            }
            let c2 = 9 * j + column;
            if matches!(self.board[c2], Tile::Empty) && self.cell_is_dead(c2) {
                return true;
            }
            j += 1;
        }
        let square_row: usize = (row / 3) * 3;
        let square_column: usize = (column / 3) * 3;
        proof {
            assert(square_row <= 6 && square_column <= 6) by (nonlinear_arith)
                requires
                    row <= 8,
                    column <= 8,
                    square_row == (row / 3) * 3,
                    square_column == (column / 3) * 3,
            ;
        }
        let mut jr: usize = square_row;
        while jr < square_row + 3
            invariant
                self.wf(),
                square_row <= 6,
                square_column <= 6,
                square_row <= jr <= square_row + 3,
            decreases square_row + 3 - jr,
        {
            let mut jc: usize = square_column;
            while jc < square_column + 3
                invariant
                    self.wf(),
                    square_row <= 6,
                    square_column <= 6,
                    square_row <= jr <= square_row + 2,
                    square_column <= jc <= square_column + 3,
                decreases square_column + 3 - jc,
            {
                let c3 = 9 * jr + jc;
                if matches!(self.board[c3], Tile::Empty) && self.cell_is_dead(c3) {
                    return true;
                }
                jc += 1;
            }
            jr += 1;
        }
        false
    }

    /// Whether no digit at all is legal at cell `c`. A `true` answer means
    /// the candidate list of `c` is empty; a `false` answer claims
    /// nothing, so this is cheap evidence for a branch cut: it allocates
    /// nothing and stops at the first legal digit.
    fn cell_is_dead(&self, c: usize) -> (r: bool)
        requires
            self.wf(),
            c < 81,
        ensures
            r ==> candidates(self.board@, c as int).len() == 0,
    {
        let mut d: usize = 0;
        while d < 9
            invariant
                self.wf(),
                c < 81,
                d <= 9,
                forall|dd: int|
                    0 <= dd < d ==> !legal_at(self.board@, #[trigger] tile_list()[dd], c as int),
            decreases 9 - d,
        {
            if self.check_legal(index_tile(d), c) {
                return false;
            }
            d += 1;
        }
        proof {
            lemma_legal_prefix(self.board@, c as int, 9);
            if candidates(self.board@, c as int).len() > 0 {
                let t0 = candidates(self.board@, c as int)[0];
                assert(t0 != Tile::Empty && legal_at(self.board@, t0, c as int));
                lemma_tile_list_contains(t0);
                let d0 = choose|d0: int| 0 <= d0 < tile_list().len() && tile_list()[d0] == t0;
                assert(!legal_at(self.board@, tile_list()[d0], c as int));
                assert(false);
            }
        }
        true
    }
}

} // verus!
