//! General laws of the board model: the sudoku invariant is preserved by
//! legality-gated placement and by removal, and placement and removal on
//! one cell round-trip exactly.

use vstd::prelude::*;

use crate::model::{
    branch_count, col_of, completion_of, empty_board, extends, first_empty_from, grid_full,
    grid_valid, grid_wf, legal_at, lemma_cell_split, lemma_first_empty_from,
    lemma_num_empty_update, lemma_num_empty_zero, num_empty, row_of, same_group, solution_count,
    solvable,
};
use crate::tile::{lemma_tile_list_no_empty, lemma_tile_list_ord, tile_list, tile_ord, Tile};

verus! {

/// Placing a digit that passed the legality gate into an empty cell of a
/// valid board leaves every row, column and 3x3 box free of duplicates.
/// Boards start empty and only grow by gated placements, so every
/// reachable board satisfies the core sudoku invariant.
pub proof fn lemma_legal_place_preserves_valid(s: Seq<Tile>, t: Tile, i: int)
    requires
        grid_wf(s),
        grid_valid(s),
        0 <= i < 81,
        s[i] == Tile::Empty,
        t != Tile::Empty,
        legal_at(s, t, i),
    ensures
        grid_valid(s.update(i, t)),
{
    let s2 = s.update(i, t);
    assert forall|a: int, b: int|
        0 <= a < 81 && 0 <= b < 81 && a != b && same_group(a, b) && s2[a] != Tile::Empty
        implies s2[b] != s2[a] by {
        if a == i {
            assert(s2[b] == s[b]);
            assert(s[b] != t);
        } else if b == i {
            assert(same_group(i, a));
            assert(s[a] != t);
        } else {
            assert(s2[a] == s[a] && s2[b] == s[b]);
        }
    }
}

/// Emptying any cell of a valid board keeps the board valid: removals can
/// never create a duplicate.
pub proof fn lemma_remove_preserves_valid(s: Seq<Tile>, i: int)
    requires
        grid_wf(s),
        grid_valid(s),
        0 <= i < 81,
    ensures
        grid_valid(s.update(i, Tile::Empty)),
{
    let s2 = s.update(i, Tile::Empty);
    assert forall|a: int, b: int|
        0 <= a < 81 && 0 <= b < 81 && a != b && same_group(a, b) && s2[a] != Tile::Empty
        implies s2[b] != s2[a] by {
        assert(a != i);
        assert(s2[a] == s[a]);
        if b != i {
            assert(s2[b] == s[b]);
        }
    }
}

/// The all-empty board satisfies the sudoku invariant.
pub proof fn lemma_empty_board_valid()
    ensures
        grid_valid(empty_board()),
{
}

/// Placing a tile into an empty cell and then clearing that same cell
/// restores the board to its exact pre-placement state. This holds for
/// every tile; for a digit the executable pair also returns `Ok(i)` then
/// `Ok(t)` by the contracts of `place_tile` and `remove_tile`, while
/// placing `Empty` leaves the cell empty, so the removal then reports
/// `AlreadyEmpty` with the board still restored exactly.
pub proof fn lemma_place_remove_round_trip(s: Seq<Tile>, t: Tile, i: int)
    requires
        grid_wf(s),
        0 <= i < 81,
        s[i] == Tile::Empty,
    ensures
        s.update(i, t).update(i, Tile::Empty) == s,
{
    assert(s.update(i, t).update(i, Tile::Empty) =~= s);
}

/// Clearing a filled cell and then placing the removed digit back restores
/// the board to its exact pre-removal state.
pub proof fn lemma_remove_place_round_trip(s: Seq<Tile>, i: int)
    requires
        grid_wf(s),
        0 <= i < 81,
        s[i] != Tile::Empty,
    ensures
        s.update(i, Tile::Empty).update(i, s[i]) == s,
{
    assert(s.update(i, Tile::Empty).update(i, s[i]) =~= s);
}

/// A sum folded back into the enumeration range: `s` for `s` below nine,
/// else `s - 9`.
spec fn wrap9(s: int) -> int {
    if s < 9 {
        s
    } else {
        s - 9
    }
}

/// The enumeration position of the digit a fixed complete solution puts at
/// cell `x`: row-band, row-within-band and column added, wrapped into the
/// range. Shifting each row this way never repeats a digit in a row,
/// column or box.
spec fn pattern_ord(x: int) -> int {
    wrap9(row_of(x) / 3 + 3 * (row_of(x) % 3) + col_of(x))
}

/// An explicit complete solution of the empty board.
spec fn pattern_grid() -> Seq<Tile> {
    Seq::new(81, |x: int| tile_list()[pattern_ord(x)])
}

/// The pattern stays within the digit enumeration.
proof fn lemma_pattern_ord_bounds(x: int)
    requires
        0 <= x < 81,
    ensures
        0 <= pattern_ord(x) < 9,
{
    lemma_cell_split(x);
    let r = row_of(x);
    assert(r == 3 * (r / 3) + r % 3 && 0 <= r / 3 < 3 && 0 <= r % 3 < 3) by (nonlinear_arith)
        requires
            0 <= r < 9,
    ;
}

/// Two distinct cells of one constraint group get distinct positions from
/// the pattern.
proof fn lemma_pattern_distinct(x: int, y: int)
    requires
        0 <= x < 81,
        0 <= y < 81,
        x != y,
        same_group(x, y),
    ensures
        pattern_ord(x) != pattern_ord(y),
{
    lemma_cell_split(x);
    lemma_cell_split(y);
    let r1 = row_of(x);
    let c1 = col_of(x);
    let r2 = row_of(y);
    let c2 = col_of(y);
    let a1 = r1 / 3;
    let b1 = r1 % 3;
    let a2 = r2 / 3;
    let b2 = r2 % 3;
    assert(r1 == 3 * a1 + b1 && 0 <= a1 < 3 && 0 <= b1 < 3) by (nonlinear_arith)
        requires
            0 <= r1 < 9,
            a1 == r1 / 3,
            b1 == r1 % 3,
    ;
    assert(r2 == 3 * a2 + b2 && 0 <= a2 < 3 && 0 <= b2 < 3) by (nonlinear_arith)
        requires
            0 <= r2 < 9,
            a2 == r2 / 3,
            b2 == r2 % 3,
    ;
    if pattern_ord(x) == pattern_ord(y) {
        if r1 == r2 {
            assert(c1 == c2);
            assert(false);
        } else if c1 == c2 {
            assert(a1 + 3 * b1 == a2 + 3 * b2);
            assert(a1 == a2 && b1 == b2);
            assert(false);
        } else {
            assert(a1 == a2 && c1 / 3 == c2 / 3);
            let cc = c1 / 3;
            let d1 = c1 % 3;
            let d2 = c2 % 3;
            assert(c1 == 3 * cc + d1 && 0 <= d1 < 3) by (nonlinear_arith)
                requires
                    0 <= c1 < 9,
                    cc == c1 / 3,
                    d1 == c1 % 3,
            ;
            assert(c2 == 3 * cc + d2 && 0 <= d2 < 3) by (nonlinear_arith)
                requires
                    0 <= c2 < 9,
                    cc == c2 / 3,
                    d2 == c2 % 3,
            ;
            assert(3 * b1 + d1 == 3 * b2 + d2);
            assert(b1 == b2 && d1 == d2);
            assert(false);
        }
    }
}

/// The empty board is solvable: the pattern grid above is a full valid
/// board, so generation never needs to retry from scratch.
pub proof fn lemma_empty_board_solvable()
    ensures
        solvable(empty_board()),
{
    let b = pattern_grid();
    assert forall|i: int| 0 <= i < 81 implies b[i] != Tile::Empty by {
        lemma_pattern_ord_bounds(i);
        lemma_tile_list_no_empty(pattern_ord(i));
    }
    assert forall|i: int, j: int|
        0 <= i < 81 && 0 <= j < 81 && i != j && same_group(i, j) && b[i] != Tile::Empty
        implies b[j] != b[i] by {
        lemma_pattern_ord_bounds(i);
        lemma_pattern_ord_bounds(j);
        lemma_pattern_distinct(i, j);
        lemma_tile_list_ord(pattern_ord(i));
        lemma_tile_list_ord(pattern_ord(j));
    }
    assert(extends(empty_board(), b));
    assert(completion_of(empty_board(), b));
}

/// A valid board with a positive solution tally really has a completion:
/// the counting search only ever tallies boards reached by legal
/// placements, and on a valid board those reach genuine completions.
pub proof fn lemma_count_pos_solvable(s: Seq<Tile>)
    requires
        grid_wf(s),
        grid_valid(s),
        solution_count(s) > 0,
    ensures
        solvable(s),
    decreases num_empty(s), 10int,
{
    if num_empty(s) == 0 {
        lemma_num_empty_zero(s, 81);
        assert(grid_full(s));
        assert(completion_of(s, s));
    } else {
        let e = first_empty_from(s, 0);
        lemma_first_empty_from(s, 0);
        if e == 81 {
            lemma_num_empty_zero(s, 81);
        }
        lemma_branch_pos_solvable(s, e, 0);
    }
}

/// Helper for the law above, walking the guarded sum over the digit
/// enumeration: some digit in `k..9` is legal and keeps a positive tally.
proof fn lemma_branch_pos_solvable(s: Seq<Tile>, e: int, k: int)
    requires
        grid_wf(s),
        grid_valid(s),
        0 <= e < 81,
        s[e] == Tile::Empty,
        0 <= k <= 9,
        branch_count(s, e, k) > 0,
    ensures
        solvable(s),
    decreases num_empty(s), 9 - k,
{
    if k < 9 {
        let t = tile_list()[k];
        if legal_at(s, t, e) && solution_count(s.update(e, t)) > 0 {
            lemma_tile_list_no_empty(k);
            lemma_num_empty_update(s, e, t, 81);
            lemma_legal_place_preserves_valid(s, t, e);
            lemma_count_pos_solvable(s.update(e, t));
            let b = choose|b: Seq<Tile>| completion_of(s.update(e, t), b);
            assert forall|x: int| 0 <= x < 81 && s[x] != Tile::Empty implies b[x] == s[x] by {
                assert(s.update(e, t)[x] == s[x]);
            }
            assert(completion_of(s, b));
        } else {
            lemma_branch_pos_solvable(s, e, k + 1);
        }
    }
}

/// Conversely, a solvable board has a positive solution tally: the digit a
/// completion puts at the first empty cell is legal there, and its branch
/// of the guarded sum already tallies at least that completion.
pub proof fn lemma_solvable_count_pos(s: Seq<Tile>)
    requires
        grid_wf(s),
        solvable(s),
    ensures
        solution_count(s) > 0,
    decreases num_empty(s), 10int,
{
    let b = choose|b: Seq<Tile>| completion_of(s, b);
    if num_empty(s) == 0 {
    } else {
        let e = first_empty_from(s, 0);
        lemma_first_empty_from(s, 0);
        lemma_num_empty_zero(s, 81);
        crate::model::lemma_completion_value_legal(s, b, e);
        let t = b[e];
        crate::tile::lemma_tile_list_contains(t);
        let d = choose|d: int| 0 <= d < tile_list().len() && tile_list()[d] == t;
        crate::tile::lemma_tile_list_no_empty(d);
        lemma_num_empty_update(s, e, t, 81);
        crate::model::lemma_completion_after_place(s, b, e, t);
        lemma_solvable_count_pos(s.update(e, t));
        lemma_branch_count_lower(s, e, 0, d);
    }
}

/// The guarded sum from position `k` is at least the tally of the single
/// legal digit at position `d`.
proof fn lemma_branch_count_lower(s: Seq<Tile>, e: int, k: int, d: int)
    requires
        grid_wf(s),
        0 <= e < 81,
        s[e] == Tile::Empty,
        0 <= k <= d < 9,
        legal_at(s, tile_list()[d], e),
    ensures
        branch_count(s, e, k) >= solution_count(s.update(e, tile_list()[d])),
    decreases 9 - k,
{
    if k < d {
        lemma_branch_count_lower(s, e, k + 1, d);
    }
}

} // verus!
