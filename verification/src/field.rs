//! From a drawn field to a board.

use vstd::prelude::*;
use crate::board::Board;

verus! {

/// The number of cells of a drawn field: twenty-three rows of ten from the
/// bottom up, and one row of garbage.
pub const FIELD_CELLS: usize = 240;

/// The number of cells of a board.
pub const BOARD_CELLS: usize = 40;

/// The mask of the first `upto` cells: a bit is set where the cell holds a
/// colour other than 0.
pub open spec fn cells_mask(cells: Seq<u8>, upto: nat) -> u64
    decreases upto,
{
    if upto == 0 {
        0
    } else {
        cells_mask(cells, (upto - 1) as nat) | if cells[upto - 1] != 0 {
            1u64 << ((upto - 1) as u64)
        } else {
            0u64
        }
    }
}

/// Whether the cells from `from` up to `upto` are all empty.
pub open spec fn cells_empty(cells: Seq<u8>, from: int, upto: int) -> bool {
    forall|i: int| from <= i < upto ==> cells[i] == 0
}

/// The board of a drawn field, where only the four bottom rows hold
/// anything.
pub open spec fn field_board(cells: Seq<u8>) -> Option<Board> {
    if cells.len() == FIELD_CELLS && cells_empty(cells, BOARD_CELLS as int, FIELD_CELLS as int) {
        Some(Board(cells_mask(cells, BOARD_CELLS as nat)))
    } else {
        None
    }
}

/// The board of a drawn field. `cells` holds the colour of each cell, 0 for
/// an empty one: the rows of the field from the bottom up, then the row of
/// garbage. `None` where a cell above the four bottom rows, or of the
/// garbage, is filled, or the number of cells is not that of a field.
pub fn board_from_cells(cells: &[u8]) -> (r: Option<Board>)
    ensures
        r == field_board(cells@),
{
    if cells.len() != FIELD_CELLS {
        return None;
    }
    let mut i: usize = BOARD_CELLS;
    while i < FIELD_CELLS
        invariant
            BOARD_CELLS <= i <= FIELD_CELLS,
            cells@.len() == FIELD_CELLS,
            cells_empty(cells@, BOARD_CELLS as int, i as int),
        decreases FIELD_CELLS - i,
    {
        if cells[i] != 0 {
            return None;
        }
        i = i + 1;
    }
    let mut field: u64 = 0;
    let mut idx: usize = 0;
    while idx < BOARD_CELLS
        invariant
            idx <= BOARD_CELLS,
            cells@.len() == FIELD_CELLS,
            field == cells_mask(cells@, idx as nat),
        decreases BOARD_CELLS - idx,
    {
        if cells[idx] != 0 {
            field = field | (1u64 << (idx as u64));
        } else {
            assert(field | 0u64 == field) by (bit_vector);
        }
        idx = idx + 1;
    }
    Some(Board(field))
}

} // verus!
