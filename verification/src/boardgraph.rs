//! The graph of boards: for each board, and each shape, the boards that
//! placing a piece of that shape leads to.

use vstd::prelude::*;
use crate::board::Board;
use crate::board_map::BoardMap;
use crate::shape::Shape;

verus! {

/// The boards reached from one board, one list for each shape in canonical
/// order.
pub type Edges = [Vec<Board>; 7];

/// The board graph while it is built.
pub type Gigapan = BoardMap<Edges>;

/// The board graph once it is built; it is read and no longer changed.
pub type FrozenGigapan = BoardMap<Edges>;

/// The boards that placing `shape` on `board` leads to; none for a board
/// that the graph does not hold.
pub open spec fn successors(graph: &Gigapan, board: Board, shape: Shape) -> Seq<Board> {
    if graph.has(board) {
        graph.value_of(board)@[shape.spec_index() as int]@
    } else {
        Seq::empty()
    }
}

/// Seven lists without boards.
pub fn no_edges() -> (r: Edges)
    ensures
        forall|k: int| 0 <= k < 7 ==> (#[trigger] r@[k])@ == Seq::<Board>::empty(),
{
    [Vec::new(), Vec::new(), Vec::new(), Vec::new(), Vec::new(), Vec::new(), Vec::new()]
}

} // verus!
