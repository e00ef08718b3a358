//! The board: a rectangular grid of cells, alive (`true`) or dead (`false`).

use vstd::prelude::*;

verus! {

/// A board is an ordered sequence of rows, each an ordered sequence of cells.
pub type Board = Vec<Vec<bool>>;

/// A well-formed board: at least one row, at least one column, and every row
/// of the same length (rectangular).
pub open spec fn is_board(b: Seq<Seq<bool>>) -> bool {
    &&& b.len() > 0
    &&& b[0].len() > 0
    &&& forall|y: int| 0 <= y < b.len() ==> (#[trigger] b[y]).len() == b[0].len()
}

/// Width of a board (number of columns).
pub open spec fn board_width(b: Seq<Seq<bool>>) -> int {
    b[0].len() as int
}

/// Height of a board (number of rows).
pub open spec fn board_height(b: Seq<Seq<bool>>) -> int {
    b.len() as int
}

} // verus!
