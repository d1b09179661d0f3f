//! The mathematical model of a board: a sequence of exactly 81 tiles,
//! addressed by a linear index whose row, column and 3x3 box are recovered
//! by index arithmetic, together with the legality, validity, fullness and
//! completion predicates that the executable operations are specified by.

use vstd::prelude::*;

use crate::tile::{tile_list, tile_ord, Tile};

verus! {

/// A board is well formed when it has exactly 81 cells.
pub open spec fn grid_wf(s: Seq<Tile>) -> bool {
    s.len() == 81
}

/// The row of linear index `i`.
pub open spec fn row_of(i: int) -> int {
    i / 9
}

/// The column of linear index `i`.
pub open spec fn col_of(i: int) -> int {
    i % 9
}

/// Two cells constrain each other when they share a row, a column, or a
/// 3x3 box. A cell is in the same group as itself.
pub open spec fn same_group(i: int, j: int) -> bool {
    ||| row_of(i) == row_of(j)
    ||| col_of(i) == col_of(j)
    ||| (row_of(i) / 3 == row_of(j) / 3 && col_of(i) / 3 == col_of(j) / 3)
}

/// `t` may be placed at cell `i`: it appears nowhere in the row, column or
/// box of `i`. Evaluated against the current board, before any placement.
pub open spec fn legal_at(s: Seq<Tile>, t: Tile, i: int) -> bool {
    forall|j: int| 0 <= j < 81 && same_group(i, j) ==> s[j] != t
}

/// The core sudoku invariant: no two distinct cells of one constraint
/// group hold the same digit.
pub open spec fn grid_valid(s: Seq<Tile>) -> bool {
    forall|i: int, j: int|
        0 <= i < 81 && 0 <= j < 81 && i != j && same_group(i, j) && s[i] != Tile::Empty
            ==> s[j] != s[i]
}

/// Every cell holds a digit.
pub open spec fn grid_full(s: Seq<Tile>) -> bool {
    forall|i: int| 0 <= i < 81 ==> s[i] != Tile::Empty
}

/// `b` agrees with `a` on every cell that `a` fills.
pub open spec fn extends(a: Seq<Tile>, b: Seq<Tile>) -> bool {
    forall|i: int| 0 <= i < 81 && a[i] != Tile::Empty ==> b[i] == a[i]
}

/// `b` is a completion of `a`: a full, valid board extending `a`.
pub open spec fn completion_of(a: Seq<Tile>, b: Seq<Tile>) -> bool {
    &&& grid_wf(b)
    &&& extends(a, b)
    &&& grid_full(b)
    &&& grid_valid(b)
}

/// Some completion of `a` exists.
pub open spec fn solvable(a: Seq<Tile>) -> bool {
    exists|b: Seq<Tile>| completion_of(a, b)
}

/// The board whose 81 cells are all empty.
pub open spec fn empty_board() -> Seq<Tile> {
    Seq::new(81, |i: int| Tile::Empty)
}

/// The lowest index at or above `k` holding `Empty`, or 81 if none does.
pub open spec fn first_empty_from(s: Seq<Tile>, k: int) -> int
    decreases 81 - k,
{
    if k < 0 || k >= 81 {
        81
    } else if s[k] == Tile::Empty {
        k
    } else {
        first_empty_from(s, k + 1)
    }
}

/// How many of the first `k` cells are empty.
pub open spec fn num_empty_to(s: Seq<Tile>, k: int) -> nat
    decreases k,
{
    if k <= 0 {
        0
    } else {
        num_empty_to(s, k - 1) + (if s[k - 1] == Tile::Empty {
            1nat
        } else {
            0nat
        })
    }
}

/// How many cells of the board are empty.
pub open spec fn num_empty(s: Seq<Tile>) -> nat {
    num_empty_to(s, 81)
}

/// The digits legal at cell `i` among the first `k` of the enumeration,
/// in enumeration order.
pub open spec fn legal_prefix(s: Seq<Tile>, i: int, k: int) -> Seq<Tile>
    decreases k,
{
    if k <= 0 {
        Seq::empty()
    } else {
        legal_prefix(s, i, k - 1) + (if legal_at(s, tile_list()[k - 1], i) {
            seq![tile_list()[k - 1]]
        } else {
            Seq::empty()
        })
    }
}

/// The digits legal at cell `i`, in enumeration order.
pub open spec fn candidates(s: Seq<Tile>, i: int) -> Seq<Tile> {
    legal_prefix(s, i, 9)
}

/// A cell index splits into its row and column: `x == 9 * row + col`,
/// both in range.
pub proof fn lemma_cell_split(x: int)
    requires
        0 <= x < 81,
    ensures
        x == 9 * row_of(x) + col_of(x),
        0 <= row_of(x) < 9,
        0 <= col_of(x) < 9,
{
    assert(x == 9 * (x / 9) + x % 9 && 0 <= x / 9 < 9 && 0 <= x % 9 < 9) by (nonlinear_arith)
        requires
            0 <= x < 81,
    ;
}

/// Basic facts about `first_empty_from`: it lands on the first empty cell
/// at or after `k`, and on 81 exactly when no such cell exists.
pub proof fn lemma_first_empty_from(s: Seq<Tile>, k: int)
    requires
        0 <= k <= 81,
    ensures
        k <= first_empty_from(s, k) <= 81,
        first_empty_from(s, k) < 81 ==> s[first_empty_from(s, k)] == Tile::Empty,
        forall|j: int| k <= j < first_empty_from(s, k) ==> s[j] != Tile::Empty,
        first_empty_from(s, k) == 81 ==> forall|j: int| k <= j < 81 ==> s[j] != Tile::Empty,
    decreases 81 - k,
{
    if k < 81 && s[k] != Tile::Empty {
        lemma_first_empty_from(s, k + 1);
    }
}

/// `first_empty_from` is pinned by its defining properties: if the cells of
/// `[k, i)` are filled and cell `i` is empty (or `i` is 81 and the rest of
/// the board is filled), the scan from `k` stops at `i`.
pub proof fn lemma_first_empty_from_at(s: Seq<Tile>, k: int, i: int)
    requires
        0 <= k <= i <= 81,
        forall|j: int| k <= j < i ==> s[j] != Tile::Empty,
        i < 81 ==> s[i] == Tile::Empty,
    ensures
        first_empty_from(s, k) == i,
    decreases i - k,
{
    if k < i {
        assert(s[k] != Tile::Empty);
        lemma_first_empty_from_at(s, k + 1, i);
    }
}

/// Updating cell `i` changes `num_empty_to(_, k)` for `k` past `i` by the
/// difference in emptiness, and not at all for `k` at or below `i`.
pub proof fn lemma_num_empty_update(s: Seq<Tile>, i: int, t: Tile, k: int)
    requires
        0 <= i < s.len(),
        0 <= k <= s.len(),
    ensures
        i < k ==> num_empty_to(s.update(i, t), k) + (if s[i] == Tile::Empty {
            1nat
        } else {
            0nat
        }) == num_empty_to(s, k) + (if t == Tile::Empty {
            1nat
        } else {
            0nat
        }),
        i >= k ==> num_empty_to(s.update(i, t), k) == num_empty_to(s, k),
    decreases k,
{
    if k > 0 {
        lemma_num_empty_update(s, i, t, k - 1);
        if k - 1 != i {
            assert(s.update(i, t)[k - 1] == s[k - 1]);
        }
    }
}

/// The count of empty cells among the first `k` is zero exactly when each
/// of those cells is filled, and positive when one is empty.
pub proof fn lemma_num_empty_zero(s: Seq<Tile>, k: int)
    requires
        0 <= k,
    ensures
        num_empty_to(s, k) == 0 <==> forall|j: int| 0 <= j < k ==> s[j] != Tile::Empty,
    decreases k,
{
    if k > 0 {
        lemma_num_empty_zero(s, k - 1);
    }
}

/// The members of `legal_prefix` are exactly the legal digits among the
/// first `k` of the enumeration, and each member is a legal digit.
pub proof fn lemma_legal_prefix(s: Seq<Tile>, i: int, k: int)
    requires
        0 <= k <= 9,
    ensures
        forall|m: int| 0 <= m < legal_prefix(s, i, k).len()
            ==> (#[trigger] legal_prefix(s, i, k)[m]) != Tile::Empty
                && legal_at(s, legal_prefix(s, i, k)[m], i),
        forall|d: int| 0 <= d < k && legal_at(s, tile_list()[d], i)
            ==> legal_prefix(s, i, k).contains(tile_list()[d]),
    decreases k,
{
    if k > 0 {
        lemma_legal_prefix(s, i, k - 1);
        let prev = legal_prefix(s, i, k - 1);
        let cur = legal_prefix(s, i, k);
        crate::tile::lemma_tile_list_no_empty(k - 1);
        if legal_at(s, tile_list()[k - 1], i) {
            assert(cur[prev.len() as int] == tile_list()[k - 1]);
        }
        assert forall|d: int| 0 <= d < k && legal_at(s, tile_list()[d], i)
            implies cur.contains(tile_list()[d]) by {
            if d < k - 1 {
                let m = choose|m: int| 0 <= m < prev.len() && prev[m] == tile_list()[d];
                assert(cur[m] == tile_list()[d]);
            } else {
                assert(cur[prev.len() as int] == tile_list()[d]);
            }
        }
    }
}

/// A digit legal at an empty cell of a board with no legal candidates does
/// not exist; hence no completion of the board exists.
pub proof fn lemma_no_candidates_unsolvable(s: Seq<Tile>, e: int)
    requires
        grid_wf(s),
        0 <= e < 81,
        s[e] == Tile::Empty,
        candidates(s, e).len() == 0,
    ensures
        !solvable(s),
{
    if solvable(s) {
        let b = choose|b: Seq<Tile>| completion_of(s, b);
        lemma_completion_value_legal(s, b, e);
        let t = b[e];
        crate::tile::lemma_tile_list_contains(t);
        let d = choose|d: int| 0 <= d < tile_list().len() && tile_list()[d] == t;
        lemma_legal_prefix(s, e, 9);
        assert(candidates(s, e).contains(tile_list()[d]));
    }
}

/// In any completion of a board, the digit at a cell the board leaves
/// empty is legal there against the board itself.
pub proof fn lemma_completion_value_legal(s: Seq<Tile>, b: Seq<Tile>, e: int)
    requires
        completion_of(s, b),
        0 <= e < 81,
        s[e] == Tile::Empty,
    ensures
        b[e] != Tile::Empty,
        legal_at(s, b[e], e),
{
    assert forall|j: int| 0 <= j < 81 && same_group(e, j) implies s[j] != b[e] by {
        if s[j] != Tile::Empty {
            assert(b[j] == s[j]);
            assert(j != e);
            assert(b[j] != b[e]);
        }
    }
}

/// A completion that fills cell `e` with `t` also completes the board with
/// `t` already placed at `e`.
pub proof fn lemma_completion_after_place(s: Seq<Tile>, b: Seq<Tile>, e: int, t: Tile)
    requires
        completion_of(s, b),
        0 <= e < 81,
        s[e] == Tile::Empty,
        b[e] == t,
        grid_wf(s),
    ensures
        completion_of(s.update(e, t), b),
{
    assert forall|i: int| 0 <= i < 81 && s.update(e, t)[i] != Tile::Empty
        implies b[i] == s.update(e, t)[i] by {
        if i != e {
            assert(s.update(e, t)[i] == s[i]);
        }
    }
}

/// A filled prefix does not move the first empty cell: scanning from zero
/// and scanning from `k` agree when every cell below `k` is filled.
pub proof fn lemma_first_empty_prefix(s: Seq<Tile>, k: int)
    requires
        0 <= k <= 81,
        forall|j: int| 0 <= j < k ==> s[j] != Tile::Empty,
    ensures
        first_empty_from(s, 0) == first_empty_from(s, k),
{
    lemma_first_empty_from(s, k);
    let fe = first_empty_from(s, k);
    lemma_first_empty_from_at(s, 0, fe);
}

/// A solution tally saturated at two: zero, one, or "more than one" is all
/// a uniqueness check needs to distinguish.
pub open spec fn cap2(n: int) -> int {
    if n < 2 {
        n
    } else {
        2
    }
}

/// How many completions the exhaustive search reaches from `s`: one for a
/// full board, otherwise the tallies of every legal digit placed at the
/// first empty cell, summed over the enumeration.
pub open spec fn solution_count(s: Seq<Tile>) -> nat
    decreases num_empty(s), 10int,
{
    if !grid_wf(s) {
        0
    } else if num_empty(s) == 0 {
        1
    } else {
        branch_count(s, first_empty_from(s, 0), 0)
    }
}

/// The completions reachable by filling empty cell `e` with one of the
/// digits at positions `k..9` of the enumeration.
pub open spec fn branch_count(s: Seq<Tile>, e: int, k: int) -> nat
    decreases num_empty(s), 9 - k,
    via branch_count_dec
{
    if !(grid_wf(s) && 0 <= e < 81 && s[e] == Tile::Empty && 0 <= k < 9) {
        0
    } else {
        (if legal_at(s, tile_list()[k], e) {
            solution_count(s.update(e, tile_list()[k]))
        } else {
            0
        }) + branch_count(s, e, k + 1)
    }
}

#[via_fn]
proof fn branch_count_dec(s: Seq<Tile>, e: int, k: int) {
    if grid_wf(s) && 0 <= e < 81 && s[e] == Tile::Empty && 0 <= k < 9 {
        if legal_at(s, tile_list()[k], e) {
            crate::tile::lemma_tile_list_no_empty(k);
            lemma_num_empty_update(s, e, tile_list()[k], 81);
        }
    }
}

/// A board with an empty cell at which no digit is legal has a zero
/// solution tally: placements elsewhere never restore a candidate there,
/// so that cell can never be filled by a legal placement.
pub proof fn lemma_dead_cell_count_zero(s: Seq<Tile>, c: int)
    requires
        grid_wf(s),
        0 <= c < 81,
        s[c] == Tile::Empty,
        candidates(s, c).len() == 0,
    ensures
        solution_count(s) == 0,
    decreases num_empty(s), 10int,
{
    lemma_num_empty_zero(s, 81);
    assert(num_empty(s) > 0);
    let e = first_empty_from(s, 0);
    lemma_first_empty_from(s, 0);
    lemma_dead_cell_branch_zero(s, c, e, 0);
}

/// Helper for the law above, walking the guarded sum: every branch from an
/// empty cell of such a board has a zero tally.
proof fn lemma_dead_cell_branch_zero(s: Seq<Tile>, c: int, e: int, k: int)
    requires
        grid_wf(s),
        0 <= c < 81,
        s[c] == Tile::Empty,
        candidates(s, c).len() == 0,
        0 <= e < 81,
        s[e] == Tile::Empty,
        0 <= k <= 9,
    ensures
        branch_count(s, e, k) == 0,
    decreases num_empty(s), 9 - k,
{
    if k < 9 {
        let t = tile_list()[k];
        crate::tile::lemma_tile_list_no_empty(k);
        if legal_at(s, t, e) {
            if e == c {
                lemma_legal_prefix(s, c, 9);
                assert(candidates(s, c).contains(t));
                assert(false);
            } else {
                let s2 = s.update(e, t);
                lemma_num_empty_update(s, e, t, 81);
                assert forall|d: int|
                    0 <= d < 9 implies !legal_at(s2, #[trigger] tile_list()[d], c) by {
                    crate::tile::lemma_tile_list_no_empty(d);
                    if legal_at(s2, tile_list()[d], c) {
                        assert forall|j: int|
                            0 <= j < 81 && same_group(c, j) implies s[j] != tile_list()[d] by {
                            if j != e {
                                assert(s2[j] == s[j]);
                            }
                        }
                        lemma_legal_prefix(s, c, 9);
                        assert(candidates(s, c).contains(tile_list()[d]));
                        assert(false);
                    }
                }
                lemma_legal_prefix(s2, c, 9);
                if candidates(s2, c).len() > 0 {
                    let t0 = candidates(s2, c)[0];
                    assert(t0 != Tile::Empty && legal_at(s2, t0, c));
                    crate::tile::lemma_tile_list_contains(t0);
                    let d0 = choose|d0: int|
                        0 <= d0 < tile_list().len() && tile_list()[d0] == t0;
                    assert(!legal_at(s2, tile_list()[d0], c));
                    assert(false);
                }
                assert(s2[c] == Tile::Empty);
                lemma_dead_cell_count_zero(s2, c);
            }
        }
        lemma_dead_cell_branch_zero(s, c, e, k + 1);
    }
}

/// The completions reachable from `s` by filling cell `e` with each digit
/// of `ts` in turn.
pub open spec fn cand_sum(s: Seq<Tile>, e: int, ts: Seq<Tile>) -> nat
    decreases ts.len(),
{
    if ts.len() == 0 {
        0
    } else {
        solution_count(s.update(e, ts[0])) + cand_sum(s, e, ts.drop_first())
    }
}

/// The digits legal at cell `i` among positions `k..9` of the enumeration,
/// in enumeration order.
pub open spec fn legal_suffix(s: Seq<Tile>, i: int, k: int) -> Seq<Tile>
    decreases 9 - k,
{
    if !(0 <= k < 9) {
        Seq::empty()
    } else {
        (if legal_at(s, tile_list()[k], i) {
            seq![tile_list()[k]]
        } else {
            Seq::empty()
        }) + legal_suffix(s, i, k + 1)
    }
}

/// A full well-formed board counts exactly one completion: itself.
pub proof fn lemma_solution_count_full(s: Seq<Tile>)
    requires
        grid_wf(s),
        grid_full(s),
    ensures
        solution_count(s) == 1,
{
    lemma_num_empty_zero(s, 81);
}

/// The candidate list splits into the part already enumerated and the part
/// still to come.
proof fn lemma_prefix_suffix(s: Seq<Tile>, i: int, k: int)
    requires
        0 <= k <= 9,
    ensures
        legal_prefix(s, i, k) + legal_suffix(s, i, k) == candidates(s, i),
    decreases 9 - k,
{
    if k == 9 {
        assert(legal_prefix(s, i, 9) + legal_suffix(s, i, 9) =~= candidates(s, i));
    } else {
        lemma_prefix_suffix(s, i, k + 1);
        assert(legal_prefix(s, i, k) + legal_suffix(s, i, k) =~= legal_prefix(s, i, k + 1)
            + legal_suffix(s, i, k + 1));
    }
}

/// Summing the search over the filtered candidate list agrees with the
/// guarded sum over the whole enumeration.
proof fn lemma_cand_sum_suffix(s: Seq<Tile>, e: int, k: int)
    requires
        grid_wf(s),
        0 <= e < 81,
        s[e] == Tile::Empty,
        0 <= k <= 9,
    ensures
        cand_sum(s, e, legal_suffix(s, e, k)) == branch_count(s, e, k),
    decreases 9 - k,
{
    if k < 9 {
        lemma_cand_sum_suffix(s, e, k + 1);
        if legal_at(s, tile_list()[k], e) {
            let ts = legal_suffix(s, e, k);
            assert(ts[0] == tile_list()[k]);
            assert(ts.drop_first() =~= legal_suffix(s, e, k + 1));
        } else {
            assert(legal_suffix(s, e, k) =~= legal_suffix(s, e, k + 1));
        }
    }
}

/// On a board with an empty cell, the solution tally is the sum of the
/// tallies over the candidate list of the first empty cell.
pub proof fn lemma_solution_count_unfold(s: Seq<Tile>)
    requires
        grid_wf(s),
        num_empty(s) > 0,
    ensures
        solution_count(s) == cand_sum(s, first_empty_from(s, 0), candidates(s, first_empty_from(s, 0))),
{
    let e = first_empty_from(s, 0);
    lemma_first_empty_from(s, 0);
    if e == 81 {
        lemma_num_empty_zero(s, 81);
        assert(false);
    }
    lemma_prefix_suffix(s, e, 0);
    assert(legal_prefix(s, e, 0) + legal_suffix(s, e, 0) =~= legal_suffix(s, e, 0));
    lemma_cand_sum_suffix(s, e, 0);
}

/// One step of the candidate sum: the tally of the suffix from `j` is the
/// tally of candidate `j` plus the tally of the suffix from `j + 1`.
pub proof fn lemma_cand_sum_step(s: Seq<Tile>, e: int, ts: Seq<Tile>, j: int)
    requires
        0 <= j < ts.len(),
    ensures
        cand_sum(s, e, ts.skip(j)) == solution_count(s.update(e, ts[j])) + cand_sum(
            s,
            e,
            ts.skip(j + 1),
        ),
{
    assert(ts.skip(j)[0] == ts[j]);
    assert(ts.skip(j).drop_first() =~= ts.skip(j + 1));
}

/// The completion the deterministic search converges to: starting from the
/// first empty cell, each step takes the least digit in enumeration order
/// that is legal there and leaves the board solvable. A board with no such
/// digit (or a full board) is returned as it stands.
pub open spec fn canonical_completion(s: Seq<Tile>) -> Seq<Tile>
    decreases num_empty(s), 10int,
{
    if !grid_wf(s) || num_empty(s) == 0 {
        s
    } else {
        canonical_step(s, first_empty_from(s, 0), 0)
    }
}

/// The walk behind `canonical_completion`: try the digits at positions
/// `k..9` of the enumeration at empty cell `e`, in order.
pub open spec fn canonical_step(s: Seq<Tile>, e: int, k: int) -> Seq<Tile>
    decreases num_empty(s), 9 - k,
    via canonical_step_dec
{
    if !(grid_wf(s) && 0 <= e < 81 && s[e] == Tile::Empty && 0 <= k < 9) {
        s
    } else if legal_at(s, tile_list()[k], e) && solvable(s.update(e, tile_list()[k])) {
        canonical_completion(s.update(e, tile_list()[k]))
    } else {
        canonical_step(s, e, k + 1)
    }
}

#[via_fn]
proof fn canonical_step_dec(s: Seq<Tile>, e: int, k: int) {
    if grid_wf(s) && 0 <= e < 81 && s[e] == Tile::Empty && 0 <= k < 9 {
        if legal_at(s, tile_list()[k], e) && solvable(s.update(e, tile_list()[k])) {
            crate::tile::lemma_tile_list_no_empty(k);
            lemma_num_empty_update(s, e, tile_list()[k], 81);
        }
    }
}

/// Digits that are illegal or leave the board unsolvable are passed over:
/// the canonical walk from `j` equals the walk from `dt` when no digit in
/// between qualifies.
pub proof fn lemma_canonical_walk(s: Seq<Tile>, e: int, j: int, dt: int)
    requires
        grid_wf(s),
        0 <= e < 81,
        s[e] == Tile::Empty,
        0 <= j <= dt < 9,
        forall|d: int|
            j <= d < dt ==> !(legal_at(s, tile_list()[d], e) && solvable(
                s.update(e, #[trigger] tile_list()[d]),
            )),
    ensures
        canonical_step(s, e, j) == canonical_step(s, e, dt),
    decreases dt - j,
{
    if j < dt {
        lemma_canonical_walk(s, e, j + 1, dt);
    }
}

/// The candidate list keeps the enumeration order: its members sit at
/// strictly increasing positions of the digit enumeration, all below `k`.
pub proof fn lemma_legal_prefix_ord(s: Seq<Tile>, i: int, k: int)
    requires
        0 <= k <= 9,
    ensures
        forall|m: int|
            0 <= m < legal_prefix(s, i, k).len() ==> 0 <= tile_ord(
                #[trigger] legal_prefix(s, i, k)[m],
            ) < k,
        forall|m1: int, m2: int|
            0 <= m1 < m2 < legal_prefix(s, i, k).len() ==> tile_ord(legal_prefix(s, i, k)[m1])
                < tile_ord(legal_prefix(s, i, k)[m2]),
    decreases k,
{
    if k > 0 {
        lemma_legal_prefix_ord(s, i, k - 1);
        let prev = legal_prefix(s, i, k - 1);
        let cur = legal_prefix(s, i, k);
        if legal_at(s, tile_list()[k - 1], i) {
            crate::tile::lemma_tile_list_ord(k - 1);
            assert(cur[prev.len() as int] == tile_list()[k - 1]);
            assert(forall|m: int| 0 <= m < prev.len() ==> cur[m] == prev[m]);
        }
    }
}

} // verus!
