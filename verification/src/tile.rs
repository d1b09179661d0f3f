//! The closed enumeration of cell values, the difficulty levels, and the
//! errors that board mutations can report.

use vstd::prelude::*;

verus! {

/// One cell of the board: a digit from one to nine, or `Empty`.
#[derive(Clone, Copy, PartialEq, Eq, Structural, Debug)]
pub enum Tile {
    One,
    Two,
    Three,
    Four,
    Five,
    Six,
    Seven,
    Eight,
    Nine,
    Empty,
}

/// The difficulty of a generated puzzle; each level fixes the number of
/// removal attempts the generator spends digging holes.
#[derive(Clone, Copy, PartialEq, Eq, Structural, Debug)]
pub enum Mode {
    Easy,
    Medium,
    Hard,
}

/// Why a board mutation was refused.
#[derive(Clone, Copy, PartialEq, Eq, Structural, Debug)]
pub enum GridError {
    /// A placement was attempted on a cell that already holds a digit.
    OccupiedCell,
    /// A removal was attempted on a cell that is already empty.
    AlreadyEmpty,
}

/// The nine digit tiles in their fixed enumeration order.
pub open spec fn tile_list() -> Seq<Tile> {
    seq![
        Tile::One,
        Tile::Two,
        Tile::Three,
        Tile::Four,
        Tile::Five,
        Tile::Six,
        Tile::Seven,
        Tile::Eight,
        Tile::Nine,
    ]
}

/// A tile is a digit exactly when it occurs in the enumeration of digits.
pub proof fn lemma_tile_list_contains(t: Tile)
    ensures
        t != Tile::Empty <==> tile_list().contains(t),
{
    if t != Tile::Empty {
        match t {
            Tile::One => assert(tile_list()[0] == t),
            Tile::Two => assert(tile_list()[1] == t),
            Tile::Three => assert(tile_list()[2] == t),
            Tile::Four => assert(tile_list()[3] == t),
            Tile::Five => assert(tile_list()[4] == t),
            Tile::Six => assert(tile_list()[5] == t),
            Tile::Seven => assert(tile_list()[6] == t),
            Tile::Eight => assert(tile_list()[7] == t),
            Tile::Nine => assert(tile_list()[8] == t),
            Tile::Empty => assert(false),
        }
    }
    if tile_list().contains(t) {
        let k = choose|k: int| 0 <= k < tile_list().len() && tile_list()[k] == t;
        assert(tile_list()[k] != Tile::Empty);
    }
}

/// Every entry of the digit enumeration is a digit.
pub proof fn lemma_tile_list_no_empty(k: int)
    requires
        0 <= k < 9,
    ensures
        tile_list()[k] != Tile::Empty,
{
}

/// The position a tile occupies in the enumeration of digits, with the
/// out-of-enumeration `Empty` mapped past the end.
pub open spec fn tile_ord(t: Tile) -> int {
    match t {
        Tile::One => 0,
        Tile::Two => 1,
        Tile::Three => 2,
        Tile::Four => 3,
        Tile::Five => 4,
        Tile::Six => 5,
        Tile::Seven => 6,
        Tile::Eight => 7,
        Tile::Nine => 8,
        Tile::Empty => 9,
    }
}

/// Each position of the digit enumeration holds the tile with that order,
/// so distinct positions hold distinct digits.
pub proof fn lemma_tile_list_ord(d: int)
    requires
        0 <= d < 9,
    ensures
        tile_ord(tile_list()[d]) == d,
{
    if d == 0 {
        assert(tile_list()[0] == Tile::One);
    } else if d == 1 {
        assert(tile_list()[1] == Tile::Two);
    } else if d == 2 {
        assert(tile_list()[2] == Tile::Three);
    } else if d == 3 {
        assert(tile_list()[3] == Tile::Four);
    } else if d == 4 {
        assert(tile_list()[4] == Tile::Five);
    } else if d == 5 {
        assert(tile_list()[5] == Tile::Six);
    } else if d == 6 {
        assert(tile_list()[6] == Tile::Seven);
    } else if d == 7 {
        assert(tile_list()[7] == Tile::Eight);
    } else {
        assert(tile_list()[8] == Tile::Nine);
    }
}

/// The enumeration position of a digit tile, as executable code.
pub fn digit_index(t: Tile) -> (d: usize)
    requires
        t != Tile::Empty,
    ensures
        d < 9,
        tile_list()[d as int] == t,
        d as int == tile_ord(t),
{
    match t {
        Tile::One => 0,
        Tile::Two => 1,
        Tile::Three => 2,
        Tile::Four => 3,
        Tile::Five => 4,
        Tile::Six => 5,
        Tile::Seven => 6,
        Tile::Eight => 7,
        Tile::Nine => 8,
        Tile::Empty => 0,
    }
}

/// The digit tile at position `k` of the enumeration, as executable code.
pub fn index_tile(k: usize) -> (t: Tile)
    requires
        k < 9,
    ensures
        t == tile_list()[k as int],
{
    match k {
        0 => Tile::One,
        1 => Tile::Two,
        2 => Tile::Three,
        3 => Tile::Four,
        4 => Tile::Five,
        5 => Tile::Six,
        6 => Tile::Seven,
        7 => Tile::Eight,
        _ => Tile::Nine,
    }
}

} // verus!
