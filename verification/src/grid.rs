//! The board itself: 81 cells in a flat vector, mutated only through
//! occupancy-checked placement and removal, scanned in a fixed
//! index-ascending order.

use vstd::pervasive::VecAdditionalExecFns;
use vstd::prelude::*;

use crate::model::{
    candidates, col_of, first_empty_from, grid_full, legal_at, legal_prefix, row_of, same_group,
};
use crate::tile::{
    digit_index, index_tile, lemma_tile_list_no_empty, lemma_tile_list_ord, tile_list, GridError,
    Tile,
};

verus! {

/// A 9x9 sudoku board, plus the transient solution counter used by the
/// uniqueness-counting search.
pub struct Sudoku {
    /// The 81 cells, row-major: cell `i` lies in row `i / 9`, column `i % 9`.
    pub board: Vec<Tile>,
    /// Completions found by the last uniqueness-counting run; reset to zero
    /// before each such run and never read across runs without a reset.
    pub count: isize,
}

impl Sudoku {
    /// The structural invariant: the board has exactly 81 cells.
    pub open spec fn wf(&self) -> bool {
        self.board@.len() == 81
    }

    /// A fully empty board with the counter at zero.
    pub fn new() -> (s: Sudoku)
        ensures
            s.wf(),
            s.board@ == crate::model::empty_board(),
            s.count == 0,
    {
        let mut board: Vec<Tile> = Vec::new();
        while board.len() < 81
            invariant
                board@.len() <= 81,
                forall|j: int| 0 <= j < board@.len() ==> board@[j] == Tile::Empty,
            decreases 81 - board@.len(),
        {
            board.push(Tile::Empty);
        }
        proof {
            assert(board@ =~= crate::model::empty_board());
        }
        Sudoku { board, count: 0 }
    }

    /// The lowest empty cell index, or `None` on a full board. The fixed
    /// index-ascending scan order is what makes the solver deterministic.
    pub fn find_empty(&self) -> (r: Option<usize>)
        requires
            self.wf(),
        ensures
            first_empty_from(self.board@, 0) < 81
                ==> r == Some(first_empty_from(self.board@, 0) as usize),
            first_empty_from(self.board@, 0) == 81 ==> r is None,
            r is None ==> grid_full(self.board@),
    {
        let mut i: usize = 0;
        while i < 81
            invariant
                self.wf(),
                i <= 81,
                forall|j: int| 0 <= j < i ==> self.board@[j] != Tile::Empty,
            decreases 81 - i,
        {
            if matches!(self.board[i], Tile::Empty) {
                proof {
                    crate::model::lemma_first_empty_from_at(self.board@, 0, i as int);
                }
                return Some(i);
            }
            i += 1;
        }
        proof {
            crate::model::lemma_first_empty_from_at(self.board@, 0, 81);
        }
        None
    }

    /// The lowest empty cell index at or above `from`, or `None` when every
    /// cell from there on is filled. Used by the searches to avoid
    /// rescanning a prefix that is known to be filled; `find_empty` is the
    /// same scan started at zero.
    pub fn find_empty_from(&self, from: usize) -> (r: Option<usize>)
        requires
            self.wf(),
            from <= 81,
        ensures
            first_empty_from(self.board@, from as int) < 81
                ==> r == Some(first_empty_from(self.board@, from as int) as usize),
            first_empty_from(self.board@, from as int) == 81 ==> r is None,
    {
        let mut i: usize = from;
        while i < 81
            invariant
                self.wf(),
                from <= i <= 81,
                forall|j: int| from <= j < i ==> self.board@[j] != Tile::Empty,
            decreases 81 - i,
        {
            if matches!(self.board[i], Tile::Empty) {
                proof {
                    crate::model::lemma_first_empty_from_at(self.board@, from as int, i as int);
                }
                return Some(i);
            }
            i += 1;
        }
        proof {
            crate::model::lemma_first_empty_from_at(self.board@, from as int, 81);
        }
        None
    }

    /// Place `tile` at cell `i`. Succeeds exactly when the cell is empty;
    /// no legality check is made here, that is the caller's business.
    pub fn place_tile(&mut self, tile: Tile, i: usize) -> (r: Result<usize, GridError>)
        requires
            old(self).wf(),
            i < 81,
        ensures
            final(self).wf(),
            final(self).count == old(self).count,
            old(self).board@[i as int] == Tile::Empty ==> r == Ok::<usize, GridError>(i)
                && final(self).board@ == old(self).board@.update(i as int, tile),
            old(self).board@[i as int] != Tile::Empty
                ==> r == Err::<usize, GridError>(GridError::OccupiedCell)
                && final(self).board@ == old(self).board@,
    {
        if matches!(self.board[i], Tile::Empty) {
            self.board.set(i, tile);
            Ok(i)
        } else {
            Err(GridError::OccupiedCell)
        }
    }

    /// Clear cell `i`, returning the digit it held. Succeeds exactly when
    /// the cell holds a digit.
    pub fn remove_tile(&mut self, i: usize) -> (r: Result<Tile, GridError>)
        requires
            old(self).wf(),
            i < 81,
        ensures
            final(self).wf(),
            final(self).count == old(self).count,
            old(self).board@[i as int] != Tile::Empty
                ==> r == Ok::<Tile, GridError>(old(self).board@[i as int])
                && final(self).board@ == old(self).board@.update(i as int, Tile::Empty),
            old(self).board@[i as int] == Tile::Empty
                ==> r == Err::<Tile, GridError>(GridError::AlreadyEmpty)
                && final(self).board@ == old(self).board@,
    {
        if matches!(self.board[i], Tile::Empty) {
            Err(GridError::AlreadyEmpty)
        } else {
            let removed = self.board[i];
            self.board.set(i, Tile::Empty);
            Ok(removed)
        }
    }

    /// Whether every cell holds a digit.
    pub fn is_full(&self) -> (r: bool)
        requires
            self.wf(),
        ensures
            r == grid_full(self.board@),
    {
        let mut i: usize = 0;
        while i < 81
            invariant
                self.wf(),
                i <= 81,
                forall|j: int| 0 <= j < i ==> self.board@[j] != Tile::Empty,
            decreases 81 - i,
        {
            if matches!(self.board[i], Tile::Empty) {
                return false;
            }
            i += 1;
        }
        true
    }

    /// Whether `tile` may be placed at cell `i`: it appears nowhere in the
    /// row, column or 3x3 box of `i` on the current board.
    pub fn check_legal(&self, tile: Tile, i: usize) -> (r: bool)
        requires
            self.wf(),
            i < 81,
        ensures
            r == legal_at(self.board@, tile, i as int),
    {
        let ghost s = self.board@;
        let ghost i0 = i as int;
        let row: usize = i / 9;
        proof {
            lemma_cell_index(i0);
        }
        let mut j: usize = 0;
        while j < 9
            invariant
                self.wf(),
                s == self.board@,
                j <= 9,
                row == i / 9,
                i < 81,
                i0 == i as int,
                forall|x: int|
                    0 <= x < 81 && row_of(x) == row && col_of(x) < j ==> (#[trigger] s[x])
                        != tile,
            decreases 9 - j,
        {
            let c = j + 9 * row;
            proof {
                lemma_row_col_index(row as int, j as int);
            }
            if self.board[c] == tile {
                proof {
                    assert(same_group(i0, c as int));
                    assert(!legal_at(s, tile, i0));
                }
                return false;
            }
            proof {
                assert forall|x: int|
                    0 <= x < 81 && row_of(x) == row && col_of(x) < j + 1 implies s[x]
                    != tile by {
                    lemma_cell_index(x);
                    if col_of(x) == j {
                        assert(x == c as int);
                    }
                }
            }
            j += 1;
        }
        let column: usize = i % 9;
        let mut j2: usize = 0;
        while j2 < 9
            invariant
                self.wf(),
                s == self.board@,
                j2 <= 9,
                column == i % 9,
                i < 81,
                i0 == i as int,
                forall|x: int|
                    0 <= x < 81 && col_of(x) == column && row_of(x) < j2 ==> (#[trigger] s[x])
                        != tile,
            decreases 9 - j2,
        {
            let c = column + j2 * 9;
            proof {
                lemma_row_col_index(j2 as int, column as int);
            }
            if self.board[c] == tile {
                proof {
                    assert(same_group(i0, c as int));
                    assert(!legal_at(s, tile, i0));
                }
                return false;
            }
            proof {
                assert forall|x: int|
                    0 <= x < 81 && col_of(x) == column && row_of(x) < j2 + 1 implies s[x]
                    != tile by {
                    lemma_cell_index(x);
                    if row_of(x) == j2 {
                        assert(x == c as int);
                    }
                }
            }
            j2 += 1;
        }
        let square_row: usize = (row / 3) * 3;
        let square_column: usize = (column / 3) * 3;
        proof {
            lemma_box_origin(row as int, column as int);
        }
        let mut j3: usize = square_row;
        while j3 < square_row + 3
            invariant
                self.wf(),
                s == self.board@,
                row == i / 9,
                column == i % 9,
                i < 81,
                i0 == i as int,
                square_row == (row / 3) * 3,
                square_column == (column / 3) * 3,
                square_row <= j3 <= square_row + 3,
                square_row + 3 <= 9,
                square_column + 3 <= 9,
                forall|x: int|
                    0 <= x < 81 && square_row <= row_of(x) < j3 && square_column <= col_of(x)
                        < square_column + 3 ==> (#[trigger] s[x]) != tile,
            decreases square_row + 3 - j3,
        {
            let mut k: usize = square_column;
            while k < square_column + 3
                invariant
                    self.wf(),
                    s == self.board@,
                    row == i / 9,
                    column == i % 9,
                    i < 81,
                    i0 == i as int,
                    square_row == (row / 3) * 3,
                    square_column == (column / 3) * 3,
                    square_row <= j3 < square_row + 3,
                    square_column <= k <= square_column + 3,
                    square_row + 3 <= 9,
                    square_column + 3 <= 9,
                    forall|x: int|
                        0 <= x < 81 && square_row <= row_of(x) < j3 && square_column <= col_of(x)
                            < square_column + 3 ==> (#[trigger] s[x]) != tile,
                    forall|x: int|
                        0 <= x < 81 && row_of(x) == j3 && square_column <= col_of(x) < k
                            ==> (#[trigger] s[x]) != tile,
                decreases square_column + 3 - k,
            {
                let c = j3 * 9 + k;
                proof {
                    lemma_row_col_index(j3 as int, k as int);
                }
                if tile == self.board[c] {
                    proof {
                        lemma_box_membership(row as int, j3 as int);
                        lemma_box_membership(column as int, k as int);
                        assert(same_group(i0, c as int));
                        assert(!legal_at(s, tile, i0));
                    }
                    return false;
                }
                proof {
                    assert forall|x: int|
                        0 <= x < 81 && row_of(x) == j3 && square_column <= col_of(x) < k
                            + 1 implies s[x] != tile by {
                        lemma_cell_index(x);
                        if col_of(x) == k {
                            assert(x == c as int);
                        }
                    }
                }
                k += 1;
            }
            j3 += 1;
        }
        proof {
            assert forall|x: int| 0 <= x < 81 && same_group(i0, x) implies s[x] != tile by {
                lemma_cell_index(x);
                if row_of(x) == row {
                } else if col_of(x) == column {
                } else {
                    lemma_box_range(row as int, row_of(x));
                    lemma_box_range(column as int, col_of(x));
                }
            }
        }
        true
    }

    /// The legal digits at cell `i`, in enumeration order, or `None` when
    /// no digit is legal there.
    pub fn gen_legal_moves(&self, i: usize) -> (r: Option<Vec<Tile>>)
        requires
            self.wf(),
            i < 81,
        ensures
            candidates(self.board@, i as int).len() > 0 ==> (r matches Some(v)
                && v@ == candidates(self.board@, i as int)),
            candidates(self.board@, i as int).len() == 0 ==> r is None,
    {
        let ghost s = self.board@;
        let ghost i0 = i as int;
        let row: usize = i / 9;
        let column: usize = i % 9;
        proof {
            lemma_cell_index(i0);
        }
        // One pass over the row, column and box of `i`, marking the digits
        // seen; a digit is legal exactly when it was never marked.
        let mut seen: Vec<bool> = Vec::with_capacity(9);
        let mut d0: usize = 0;
        while d0 < 9
            invariant
                seen@.len() == d0,
                d0 <= 9,
                forall|d: int| 0 <= d < d0 ==> !(#[trigger] seen@[d]),
            decreases 9 - d0,
        {
            seen.push(false);
            d0 += 1;
        }
        let mut j: usize = 0;
        while j < 9
            invariant
                self.wf(),
                s == self.board@,
                i < 81,
                i0 == i as int,
                row == i / 9,
                column == i % 9,
                j <= 9,
                seen@.len() == 9,
                forall|d: int|
                    0 <= d < 9 ==> ((#[trigger] seen@[d]) <==> exists|x: int|
                        0 <= x < 81 && row_of(x) == row && col_of(x) < j && s[x]
                            == tile_list()[d]),
            decreases 9 - j,
        {
            let c = j + 9 * row;
            proof {
                lemma_row_col_index(row as int, j as int);
            }
            let t = self.board[c];
            let ghost seen_old = seen@;
            if !matches!(t, Tile::Empty) {
                let d = digit_index(t);
                seen.set(d, true);
            }
            proof {
                assert forall|d: int|
                    0 <= d < 9 implies ((seen@[d]) <==> exists|x: int|
                    0 <= x < 81 && row_of(x) == row && col_of(x) < j + 1 && s[x]
                        == tile_list()[d]) by {
                    lemma_tile_list_ord(d);
                    lemma_tile_list_no_empty(d);
                    if seen@[d] {
                        if seen_old[d] {
                            let x = choose|x: int|
                                0 <= x < 81 && row_of(x) == row && col_of(x) < j && s[x]
                                    == tile_list()[d];
                            assert(0 <= x < 81 && row_of(x) == row && col_of(x) < j + 1
                                && s[x] == tile_list()[d]);
                        } else {
                            assert(s[c as int] == tile_list()[d]);
                        }
                    }
                    if exists|x: int|
                        0 <= x < 81 && row_of(x) == row && col_of(x) < j + 1 && s[x]
                            == tile_list()[d] {
                        let x = choose|x: int|
                            0 <= x < 81 && row_of(x) == row && col_of(x) < j + 1 && s[x]
                                == tile_list()[d];
                        if col_of(x) < j {
                            assert(seen_old[d]);
                        } else {
                            lemma_cell_index(x);
                            assert(x == c as int);
                        }
                        assert(seen@[d]);
                    }
                }
            }
            j += 1;
        }
        let mut j2: usize = 0;
        while j2 < 9
            invariant
                self.wf(),
                s == self.board@,
                i < 81,
                i0 == i as int,
                row == i / 9,
                column == i % 9,
                j2 <= 9,
                seen@.len() == 9,
                forall|d: int|
                    0 <= d < 9 ==> ((#[trigger] seen@[d]) <==> exists|x: int|
                        0 <= x < 81 && s[x] == tile_list()[d] && (row_of(x) == row || (col_of(
                            x,
                        ) == column && row_of(x) < j2))),
            decreases 9 - j2,
        {
            let c = column + j2 * 9;
            proof {
                lemma_row_col_index(j2 as int, column as int);
            }
            let t = self.board[c];
            let ghost seen_old = seen@;
            if !matches!(t, Tile::Empty) {
                let d = digit_index(t);
                seen.set(d, true);
            }
            proof {
                assert forall|d: int|
                    0 <= d < 9 implies ((seen@[d]) <==> exists|x: int|
                    0 <= x < 81 && s[x] == tile_list()[d] && (row_of(x) == row || (col_of(x)
                        == column && row_of(x) < j2 + 1))) by {
                    lemma_tile_list_ord(d);
                    lemma_tile_list_no_empty(d);
                    if seen@[d] {
                        if seen_old[d] {
                            let x = choose|x: int|
                                0 <= x < 81 && s[x] == tile_list()[d] && (row_of(x) == row || (
                                col_of(x) == column && row_of(x) < j2));
                            assert(0 <= x < 81 && s[x] == tile_list()[d] && (row_of(x) == row
                                || (col_of(x) == column && row_of(x) < j2 + 1)));
                        } else {
                            assert(s[c as int] == tile_list()[d]);
                        }
                    }
                    if exists|x: int|
                        0 <= x < 81 && s[x] == tile_list()[d] && (row_of(x) == row || (col_of(
                        x) == column && row_of(x) < j2 + 1)) {
                        let x = choose|x: int|
                            0 <= x < 81 && s[x] == tile_list()[d] && (row_of(x) == row || (
                            col_of(x) == column && row_of(x) < j2 + 1));
                        if row_of(x) == row || (col_of(x) == column && row_of(x) < j2) {
                            assert(seen_old[d]);
                        } else {
                            lemma_cell_index(x);
                            assert(x == c as int);
                        }
                        assert(seen@[d]);
                    }
                }
            }
            j2 += 1;
        }
        let square_row: usize = (row / 3) * 3;
        let square_column: usize = (column / 3) * 3;
        proof {
            lemma_box_origin(row as int, column as int);
        }
        let mut j3: usize = square_row;
        while j3 < square_row + 3
            invariant
                self.wf(),
                s == self.board@,
                i < 81,
                i0 == i as int,
                row == i / 9,
                column == i % 9,
                square_row == (row / 3) * 3,
                square_column == (column / 3) * 3,
                square_row <= j3 <= square_row + 3,
                square_row + 3 <= 9,
                square_column + 3 <= 9,
                seen@.len() == 9,
                forall|d: int|
                    0 <= d < 9 ==> ((#[trigger] seen@[d]) <==> exists|x: int|
                        0 <= x < 81 && s[x] == tile_list()[d] && (row_of(x) == row || col_of(x)
                            == column || (square_row <= row_of(x) < j3 && square_column
                            <= col_of(x) < square_column + 3))),
            decreases square_row + 3 - j3,
        {
            let mut k3: usize = square_column;
            while k3 < square_column + 3
                invariant
                    self.wf(),
                    s == self.board@,
                    i < 81,
                    i0 == i as int,
                    row == i / 9,
                    column == i % 9,
                    square_row == (row / 3) * 3,
                    square_column == (column / 3) * 3,
                    square_row <= j3 < square_row + 3,
                    square_column <= k3 <= square_column + 3,
                    square_row + 3 <= 9,
                    square_column + 3 <= 9,
                    seen@.len() == 9,
                    forall|d: int|
                        0 <= d < 9 ==> ((#[trigger] seen@[d]) <==> exists|x: int|
                            0 <= x < 81 && s[x] == tile_list()[d] && (row_of(x) == row || col_of(
                                x,
                            ) == column || (square_row <= row_of(x) < j3 && square_column
                                <= col_of(x) < square_column + 3) || (row_of(x) == j3
                                && square_column <= col_of(x) < k3))),
                decreases square_column + 3 - k3,
            {
                let c = j3 * 9 + k3;
                proof {
                    lemma_row_col_index(j3 as int, k3 as int);
                }
                let t = self.board[c];
                let ghost seen_old = seen@;
                if !matches!(t, Tile::Empty) {
                    let d = digit_index(t);
                    seen.set(d, true);
                }
                proof {
                    assert forall|d: int|
                        0 <= d < 9 implies ((seen@[d]) <==> exists|x: int|
                        0 <= x < 81 && s[x] == tile_list()[d] && (row_of(x) == row || col_of(x)
                            == column || (square_row <= row_of(x) < j3 && square_column
                            <= col_of(x) < square_column + 3) || (row_of(x) == j3
                            && square_column <= col_of(x) < k3 + 1))) by {
                        lemma_tile_list_ord(d);
                        lemma_tile_list_no_empty(d);
                        if seen@[d] {
                            if seen_old[d] {
                                let x = choose|x: int|
                                    0 <= x < 81 && s[x] == tile_list()[d] && (row_of(x) == row
                                        || col_of(x) == column || (square_row <= row_of(x) < j3
                                        && square_column <= col_of(x) < square_column + 3) || (
                                    row_of(x) == j3 && square_column <= col_of(x) < k3));
                                assert(0 <= x < 81 && s[x] == tile_list()[d] && (row_of(x)
                                    == row || col_of(x) == column || (square_row <= row_of(x)
                                    < j3 && square_column <= col_of(x) < square_column + 3) || (
                                row_of(x) == j3 && square_column <= col_of(x) < k3 + 1)));
                            } else {
                                assert(s[c as int] == tile_list()[d]);
                            }
                        }
                        if exists|x: int|
                            0 <= x < 81 && s[x] == tile_list()[d] && (row_of(x) == row || col_of(
                            x) == column || (square_row <= row_of(x) < j3 && square_column
                                <= col_of(x) < square_column + 3) || (row_of(x) == j3
                                && square_column <= col_of(x) < k3 + 1)) {
                            let x = choose|x: int|
                                0 <= x < 81 && s[x] == tile_list()[d] && (row_of(x) == row
                                    || col_of(x) == column || (square_row <= row_of(x) < j3
                                    && square_column <= col_of(x) < square_column + 3) || (
                                row_of(x) == j3 && square_column <= col_of(x) < k3 + 1));
                            if row_of(x) == row || col_of(x) == column || (square_row
                                <= row_of(x) < j3 && square_column <= col_of(x) < square_column
                                + 3) || (row_of(x) == j3 && square_column <= col_of(x) < k3) {
                                assert(seen_old[d]);
                            } else {
                                lemma_cell_index(x);
                                assert(x == c as int);
                            }
                            assert(seen@[d]);
                        }
                    }
                }
                k3 += 1;
            }
            j3 += 1;
        }
        proof {
            assert forall|d: int|
                0 <= d < 9 implies ((seen@[d]) <==> !legal_at(s, tile_list()[d], i0)) by {
                lemma_tile_list_no_empty(d);
                if seen@[d] {
                    let x = choose|x: int|
                        0 <= x < 81 && s[x] == tile_list()[d] && (row_of(x) == row || col_of(x)
                            == column || (square_row <= row_of(x) < square_row + 3
                            && square_column <= col_of(x) < square_column + 3));
                    if square_row <= row_of(x) < square_row + 3 && square_column <= col_of(x)
                        < square_column + 3 {
                        lemma_box_membership(row as int, row_of(x));
                        lemma_box_membership(column as int, col_of(x));
                    }
                    assert(same_group(i0, x));
                }
                if !legal_at(s, tile_list()[d], i0) {
                    let x = choose|x: int|
                        0 <= x < 81 && same_group(i0, x) && s[x] == tile_list()[d];
                    lemma_cell_index(x);
                    if row_of(x) == row || col_of(x) == column {
                    } else {
                        lemma_box_range(row as int, row_of(x));
                        lemma_box_range(column as int, col_of(x));
                    }
                    assert(seen@[d]);
                }
            }
        }
        let mut legal_moves: Vec<Tile> = Vec::with_capacity(9);
        let mut k: usize = 0;
        while k < 9
            invariant
                self.wf(),
                s == self.board@,
                i < 81,
                i0 == i as int,
                k <= 9,
                seen@.len() == 9,
                forall|d: int|
                    0 <= d < 9 ==> ((#[trigger] seen@[d]) <==> !legal_at(s, tile_list()[d], i0)),
                legal_moves@ == legal_prefix(s, i0, k as int),
            decreases 9 - k,
        {
            if !seen[k] {
                legal_moves.push(index_tile(k));
            }
            proof {
                assert(legal_moves@ =~= legal_prefix(s, i0, k + 1));
            }
            k += 1;
        }
        if legal_moves.len() > 0 {
            Some(legal_moves)
        } else {
            None
        }
    }
}


/// A cell index splits into its row and column: `x == 9 * row + col`.
proof fn lemma_cell_index(x: int)
    requires
        0 <= x < 81,
    ensures
        x == 9 * row_of(x) + col_of(x),
        0 <= row_of(x) < 9,
        0 <= col_of(x) < 9,
{
    assert(x == 9 * (x / 9) + x % 9 && 0 <= x / 9 < 9 && 0 <= x % 9 < 9) by (nonlinear_arith)
        requires
            0 <= x < 81,
    ;
}

/// A row and column pair names the cell `9 * r + c`, which lies on the
/// board and has exactly that row and column.
proof fn lemma_row_col_index(r: int, c: int)
    requires
        0 <= r < 9,
        0 <= c < 9,
    ensures
        row_of(9 * r + c) == r,
        col_of(9 * r + c) == c,
        0 <= 9 * r + c < 81,
{
    assert((9 * r + c) / 9 == r && (9 * r + c) % 9 == c) by (nonlinear_arith)
        requires
            0 <= r < 9,
            0 <= c < 9,
    ;
}

/// A row or column lies inside the 3-wide band that starts at its box
/// origin `(v / 3) * 3`.
proof fn lemma_box_origin(r: int, c: int)
    requires
        0 <= r < 9,
        0 <= c < 9,
    ensures
        (r / 3) * 3 <= r < (r / 3) * 3 + 3,
        (r / 3) * 3 + 3 <= 9,
        (c / 3) * 3 <= c < (c / 3) * 3 + 3,
        (c / 3) * 3 + 3 <= 9,
{
    assert((r / 3) * 3 <= r < (r / 3) * 3 + 3 && (r / 3) * 3 + 3 <= 9) by (nonlinear_arith)
        requires
            0 <= r < 9,
    ;
    assert((c / 3) * 3 <= c < (c / 3) * 3 + 3 && (c / 3) * 3 + 3 <= 9) by (nonlinear_arith)
        requires
            0 <= c < 9,
    ;
}

/// A value inside the band of `v`'s box shares `v`'s box coordinate.
proof fn lemma_box_membership(v: int, w: int)
    requires
        0 <= v,
        (v / 3) * 3 <= w < (v / 3) * 3 + 3,
    ensures
        w / 3 == v / 3,
{
    assert(w / 3 == v / 3) by (nonlinear_arith)
        requires
            0 <= v,
            (v / 3) * 3 <= w < (v / 3) * 3 + 3,
    ;
}

/// Two values with the same box coordinate lie in the same 3-wide band.
proof fn lemma_box_range(v: int, w: int)
    requires
        0 <= v,
        0 <= w,
        v / 3 == w / 3,
    ensures
        (v / 3) * 3 <= w < (v / 3) * 3 + 3,
{
    assert((v / 3) * 3 <= w < (v / 3) * 3 + 3) by (nonlinear_arith)
        requires
            0 <= v,
            0 <= w,
            v / 3 == w / 3,
    ;
}

} // verus!
