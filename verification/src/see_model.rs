//! The model of the search: what the player can reach, stated over
//! sequences and sets.

use vstd::prelude::*;
use crate::board::Board;
use crate::board_set::BoardSet;
use crate::boardgraph::{successors, FrozenGigapan};
use crate::queue::{Bag, QueueState};
use crate::shape::Shape;

verus! {

/// What stays the same throughout one search.
pub struct Setting {
    /// The boards that may be entered; every board where there is no such
    /// set.
    pub culled: Option<Set<Board>>,
    /// Whether the hold may be used.
    pub use_hold: bool,
    /// Whether a board with just the two bottom rows filled counts as
    /// cleared too.
    pub two_line: bool,
    /// The draw windows, one entry for each piece of the queue.
    pub bags: Seq<(u8, Bag)>,
}

/// The boards of an optional set; `None` stands for every board.
pub open spec fn culled_view(culled: Option<&BoardSet>) -> Option<Set<Board>> {
    match culled {
        Some(set) => Some(set@),
        None => None,
    }
}

/// Whether `board` may be entered.
pub open spec fn allowed(culled: Option<Set<Board>>, board: Board) -> bool {
    match culled {
        Some(set) => set.contains(board),
        None => true,
    }
}

/// Whether `board` counts as cleared.
pub open spec fn cleared(board: Board, two_line: bool) -> bool {
    board == Board::spec_full() || (two_line && board == Board::spec_half())
}

/// Whether the pieces of `queue`, placed one after the other in this order,
/// can lead from `board` to a cleared board. A cleared board needs no more
/// pieces; a board that is not cleared needs a next piece.
pub open spec fn completable(
    graph: &FrozenGigapan,
    culled: Option<Set<Board>>,
    board: Board,
    queue: Seq<Shape>,
    two_line: bool,
) -> bool
    decreases queue.len(),
{
    cleared(board, two_line) || (queue.len() > 0 && exists|i: int|
        0 <= i < successors(graph, board, queue[0]).len() && allowed(
            culled,
            #[trigger] successors(graph, board, queue[0])[i],
        ) && completable(
            graph,
            culled,
            successors(graph, board, queue[0])[i],
            queue.skip(1),
            two_line,
        ))
}

/// Whether the pieces of `queue` can lead from `board` to a cleared board
/// when one piece, at first `hold`, is held back: each piece is either
/// placed, or held back while the piece held before is placed.
pub open spec fn completable_with_hold(
    graph: &FrozenGigapan,
    culled: Option<Set<Board>>,
    board: Board,
    queue: Seq<Shape>,
    hold: Shape,
    two_line: bool,
) -> bool
    decreases queue.len(),
{
    cleared(board, two_line) || (queue.len() > 0 && ((exists|i: int|
        0 <= i < successors(graph, board, queue[0]).len() && allowed(
            culled,
            #[trigger] successors(graph, board, queue[0])[i],
        ) && completable_with_hold(
            graph,
            culled,
            successors(graph, board, queue[0])[i],
            queue.skip(1),
            hold,
            two_line,
        )) || (hold != queue[0] && exists|i: int|
        0 <= i < successors(graph, board, hold).len() && allowed(
            culled,
            #[trigger] successors(graph, board, hold)[i],
        ) && completable_with_hold(
            graph,
            culled,
            successors(graph, board, hold)[i],
            queue.skip(1),
            queue[0],
            two_line,
        ))))
}


/// The state at piece `revealed`, after the window was filled again where
/// that piece is the first of its bag.
pub open spec fn refilled(bags: Seq<(u8, Bag)>, state: QueueState, revealed: int) -> QueueState {
    if bags[revealed].0 == 0 {
        state.spec_next(&bags[revealed].1)
    } else {
        state
    }
}

/// The state after piece `revealed` turned out to be the shape at `k`;
/// `None` where the bag cannot give that shape.
pub open spec fn drawn(bags: Seq<(u8, Bag)>, state: QueueState, revealed: int, k: int) -> Option<
    QueueState,
> {
    refilled(bags, state, revealed).spec_take(&bags[revealed].1, Shape::at(k))
}

/// The number of piece orders that the bags can still give from piece
/// `revealed` on.
pub open spec fn continuations(bags: Seq<(u8, Bag)>, state: QueueState, revealed: nat) -> nat
    decreases bags.len() - revealed, 8nat,
{
    if revealed >= bags.len() {
        1
    } else {
        continuations_upto(bags, state, revealed, 7)
    }
}

/// The number of piece orders from piece `revealed` on that begin with one of
/// the first `upto` shapes.
pub open spec fn continuations_upto(
    bags: Seq<(u8, Bag)>,
    state: QueueState,
    revealed: nat,
    upto: nat,
) -> nat
    decreases bags.len() - revealed, upto,
{
    if upto == 0 || revealed >= bags.len() {
        0
    } else {
        continuations_upto(bags, state, revealed, (upto - 1) as nat) + match drawn(
            bags,
            state,
            revealed as int,
            upto - 1,
        ) {
            Some(t) => continuations(bags, t, revealed + 1),
            None => 0,
        }
    }
}

/// Whether the pieces in view, all of them known, can be played out to a
/// cleared board. With a hold in use and nothing held yet, the first piece
/// goes into the hold.
pub open spec fn endgame(
    graph: &FrozenGigapan,
    s: Setting,
    board: Board,
    hold: Option<Shape>,
    queue: Seq<Shape>,
) -> bool {
    if s.use_hold {
        match hold {
            Some(held) => completable_with_hold(graph, s.culled, board, queue, held, s.two_line),
            None => queue.len() > 0 && completable_with_hold(
                graph,
                s.culled,
                board,
                queue.skip(1),
                queue[0],
                s.two_line,
            ),
        }
    } else {
        completable(graph, s.culled, board, queue, s.two_line)
    }
}

/// Whether placing the current piece is left out of the search: with the
/// hold free and the next piece in view equal to the current one, holding is
/// the only move looked at.
pub open spec fn skips_placing(s: Setting, hold: Option<Shape>, queue: Seq<Shape>) -> bool {
    s.use_hold && hold is None && queue.len() >= 2 && queue[1] == queue[0]
}

/// The number of hidden piece orders that the player clears from this
/// position on with the best play: the pieces of `queue` are in view, piece
/// `revealed` of the bags is the next to come into view, and each move is
/// chosen before that piece is seen.
pub open spec fn found(
    graph: &FrozenGigapan,
    s: Setting,
    board: Board,
    hold: Option<Shape>,
    state: QueueState,
    queue: Seq<Shape>,
    revealed: nat,
) -> nat
    decreases s.bags.len() - revealed, 4nat, 0nat,
{
    if s.two_line && board == Board::spec_half() {
        continuations(s.bags, state, revealed)
    } else if revealed >= s.bags.len() {
        if endgame(graph, s, board, hold, queue) {
            1
        } else {
            0
        }
    } else if queue.len() == 0 {
        0
    } else {
        let by_hold = hold_value(graph, s, board, hold, state, queue, revealed);
        let by_place = place_value(graph, s, board, hold, state, queue, revealed);
        let by_swap = swap_value(graph, s, board, hold, state, queue, revealed);
        if by_hold >= by_place && by_hold >= by_swap {
            by_hold
        } else if by_place >= by_swap {
            by_place
        } else {
            by_swap
        }
    }
}

/// What the player clears who puts the current piece into the free hold.
pub open spec fn hold_value(
    graph: &FrozenGigapan,
    s: Setting,
    board: Board,
    hold: Option<Shape>,
    state: QueueState,
    queue: Seq<Shape>,
    revealed: nat,
) -> nat
    decreases s.bags.len() - revealed, 3nat, 0nat,
{
    if revealed < s.bags.len() && queue.len() > 0 && s.use_hold && hold is None {
        option_found(graph, s, board, Some(queue[0]), state, queue.skip(1), revealed, 7)
    } else {
        0
    }
}

/// What the player clears at best who places the current piece.
pub open spec fn place_value(
    graph: &FrozenGigapan,
    s: Setting,
    board: Board,
    hold: Option<Shape>,
    state: QueueState,
    queue: Seq<Shape>,
    revealed: nat,
) -> nat
    decreases s.bags.len() - revealed, 3nat, 0nat,
{
    if revealed < s.bags.len() && queue.len() > 0 && !skips_placing(s, hold, queue) {
        best_found(
            graph,
            s,
            successors(graph, board, queue[0]),
            hold,
            state,
            queue.skip(1),
            revealed,
            successors(graph, board, queue[0]).len(),
        )
    } else {
        0
    }
}

/// Whether the held piece may be placed in place of the current one.
pub open spec fn may_swap(s: Setting, hold: Option<Shape>, queue: Seq<Shape>) -> bool {
    s.use_hold && queue.len() > 0 && hold is Some && hold != Some(queue[0])
}

/// What the player clears at best who places the held piece and holds the
/// current one.
pub open spec fn swap_value(
    graph: &FrozenGigapan,
    s: Setting,
    board: Board,
    hold: Option<Shape>,
    state: QueueState,
    queue: Seq<Shape>,
    revealed: nat,
) -> nat
    decreases s.bags.len() - revealed, 3nat, 0nat,
{
    if revealed < s.bags.len() && may_swap(s, hold, queue) {
        best_found(
            graph,
            s,
            successors(graph, board, hold->0),
            Some(queue[0]),
            state,
            queue.skip(1),
            revealed,
            successors(graph, board, hold->0).len(),
        )
    } else {
        0
    }
}

/// The best of what the player clears who moves to one of the first `upto`
/// boards of `edges` that may be entered, with `next_hold` held after the
/// move.
pub open spec fn best_found(
    graph: &FrozenGigapan,
    s: Setting,
    edges: Seq<Board>,
    next_hold: Option<Shape>,
    state: QueueState,
    rest: Seq<Shape>,
    revealed: nat,
    upto: nat,
) -> nat
    decreases s.bags.len() - revealed, 2nat, upto,
{
    if upto == 0 || revealed >= s.bags.len() {
        0
    } else {
        let before = best_found(graph, s, edges, next_hold, state, rest, revealed, (upto - 1) as nat);
        let here = option_found(graph, s, edges[upto - 1], next_hold, state, rest, revealed, 7);
        if allowed(s.culled, edges[upto - 1]) && here > before {
            here
        } else {
            before
        }
    }
}

/// What the player clears after one move, to `next_board` with `next_hold`
/// held: the sum, over those of the first `upto` shapes that the next piece
/// can turn out to be, of what is cleared from there on.
pub open spec fn option_found(
    graph: &FrozenGigapan,
    s: Setting,
    next_board: Board,
    next_hold: Option<Shape>,
    state: QueueState,
    rest: Seq<Shape>,
    revealed: nat,
    upto: nat,
) -> nat
    decreases s.bags.len() - revealed, 1nat, upto,
{
    if upto == 0 || revealed >= s.bags.len() {
        0
    } else {
        option_found(graph, s, next_board, next_hold, state, rest, revealed, (upto - 1) as nat)
            + match drawn(s.bags, state, revealed as int, upto - 1) {
            Some(t) => found(
                graph,
                s,
                next_board,
                next_hold,
                t,
                rest.push(Shape::at(upto - 1)),
                revealed + 1,
            ),
            None => 0,
        }
    }
}

/// Whether the search learns how many hidden piece orders there are from
/// this position on: it does at the end of the queue, and before that where,
/// for each shape the next piece can turn out to be, some move that is
/// looked at leads to a position of which it learns it.
pub open spec fn known(
    graph: &FrozenGigapan,
    s: Setting,
    board: Board,
    hold: Option<Shape>,
    state: QueueState,
    queue: Seq<Shape>,
    revealed: nat,
) -> bool
    decreases s.bags.len() - revealed, 4nat,
{
    if s.two_line && board == Board::spec_half() {
        true
    } else if revealed >= s.bags.len() {
        true
    } else if queue.len() == 0 {
        false
    } else {
        forall|k: int|
            0 <= k < 7 && (#[trigger] drawn(s.bags, state, revealed as int, k)) is Some ==> slot_known(
                graph,
                s,
                board,
                hold,
                state,
                queue,
                revealed,
                k,
            )
    }
}

/// Whether some move that is looked at leads to a position of which the
/// count is learnt, where the next piece turns out to be the shape at `k`.
pub open spec fn slot_known(
    graph: &FrozenGigapan,
    s: Setting,
    board: Board,
    hold: Option<Shape>,
    state: QueueState,
    queue: Seq<Shape>,
    revealed: nat,
    k: int,
) -> bool
    decreases s.bags.len() - revealed, 3nat,
{
    revealed < s.bags.len() && queue.len() > 0 && {
        ||| (s.use_hold && hold is None && child_known(
            graph,
            s,
            board,
            Some(queue[0]),
            state,
            queue.skip(1),
            revealed,
            k,
        ))
        ||| (!skips_placing(s, hold, queue) && edge_known(
            graph,
            s,
            successors(graph, board, queue[0]),
            hold,
            state,
            queue.skip(1),
            revealed,
            k,
            successors(graph, board, queue[0]).len(),
        ))
        ||| (may_swap(s, hold, queue) && edge_known(
            graph,
            s,
            successors(graph, board, hold->0),
            Some(queue[0]),
            state,
            queue.skip(1),
            revealed,
            k,
            successors(graph, board, hold->0).len(),
        ))
    }
}

/// Whether a move to one of the first `upto` boards of `edges` that may be
/// entered leads to a position of which the count is learnt, where the next
/// piece turns out to be the shape at `k`.
pub open spec fn edge_known(
    graph: &FrozenGigapan,
    s: Setting,
    edges: Seq<Board>,
    next_hold: Option<Shape>,
    state: QueueState,
    rest: Seq<Shape>,
    revealed: nat,
    k: int,
    upto: nat,
) -> bool
    decreases s.bags.len() - revealed, 2nat, upto,
{
    if upto == 0 || revealed >= s.bags.len() {
        false
    } else {
        edge_known(graph, s, edges, next_hold, state, rest, revealed, k, (upto - 1) as nat) || (
        allowed(s.culled, edges[upto - 1]) && child_known(
            graph,
            s,
            edges[upto - 1],
            next_hold,
            state,
            rest,
            revealed,
            k,
        ))
    }
}

/// Whether the count is learnt of the position after a move to `next_board`
/// where the next piece turns out to be the shape at `k`.
pub open spec fn child_known(
    graph: &FrozenGigapan,
    s: Setting,
    next_board: Board,
    next_hold: Option<Shape>,
    state: QueueState,
    rest: Seq<Shape>,
    revealed: nat,
    k: int,
) -> bool
    decreases s.bags.len() - revealed, 1nat,
{
    revealed < s.bags.len() && match drawn(s.bags, state, revealed as int, k) {
        Some(t) => known(graph, s, next_board, next_hold, t, rest.push(Shape::at(k)), revealed + 1),
        None => false,
    }
}

/// Whether a move to `next_board` clears every hidden piece order, and the
/// search learns their number for each shape that can come next.
pub open spec fn option_full(
    graph: &FrozenGigapan,
    s: Setting,
    next_board: Board,
    next_hold: Option<Shape>,
    state: QueueState,
    rest: Seq<Shape>,
    revealed: nat,
    upto: nat,
) -> bool {
    forall|k: int|
        0 <= k < upto ==> (#[trigger] drawn(s.bags, state, revealed as int, k) matches Some(t)
            ==> known(graph, s, next_board, next_hold, t, rest.push(Shape::at(k)), revealed + 1)
            && found(graph, s, next_board, next_hold, t, rest.push(Shape::at(k)), revealed + 1)
            == continuations(s.bags, t, revealed + 1))
}

/// The piece orders that begin with few shapes are among those that begin
/// with more.
pub proof fn lemma_continuations_upto_grows(
    bags: Seq<(u8, Bag)>,
    state: QueueState,
    revealed: nat,
    lo: nat,
    hi: nat,
)
    requires
        lo <= hi,
    ensures
        continuations_upto(bags, state, revealed, lo) <= continuations_upto(bags, state, revealed, hi),
    decreases hi,
{
    if lo < hi {
        lemma_continuations_upto_grows(bags, state, revealed, lo, (hi - 1) as nat);
    }
}

/// The player never clears more piece orders than there are.
pub proof fn lemma_found_bounded(
    graph: &FrozenGigapan,
    s: Setting,
    board: Board,
    hold: Option<Shape>,
    state: QueueState,
    queue: Seq<Shape>,
    revealed: nat,
)
    ensures
        found(graph, s, board, hold, state, queue, revealed) <= continuations(s.bags, state, revealed),
    decreases s.bags.len() - revealed, 3nat, 0nat,
{
    if s.two_line && board == Board::spec_half() {
    } else if revealed >= s.bags.len() {
    } else if queue.len() == 0 {
    } else {
        if s.use_hold && hold is None {
            lemma_option_bounded(graph, s, board, Some(queue[0]), state, queue.skip(1), revealed, 7);
        }
        if !skips_placing(s, hold, queue) {
            let edges = successors(graph, board, queue[0]);
            lemma_best_bounded(graph, s, edges, hold, state, queue.skip(1), revealed, edges.len());
        }
        if may_swap(s, hold, queue) {
            let edges = successors(graph, board, hold->0);
            lemma_best_bounded(
                graph,
                s,
                edges,
                Some(queue[0]),
                state,
                queue.skip(1),
                revealed,
                edges.len(),
            );
        }
    }
}

/// No move clears more piece orders than there are.
pub proof fn lemma_best_bounded(
    graph: &FrozenGigapan,
    s: Setting,
    edges: Seq<Board>,
    next_hold: Option<Shape>,
    state: QueueState,
    rest: Seq<Shape>,
    revealed: nat,
    upto: nat,
)
    ensures
        best_found(graph, s, edges, next_hold, state, rest, revealed, upto) <= continuations_upto(
            s.bags,
            state,
            revealed,
            7,
        ),
    decreases s.bags.len() - revealed, 2nat, upto,
{
    if upto == 0 || revealed >= s.bags.len() {
    } else {
        lemma_best_bounded(graph, s, edges, next_hold, state, rest, revealed, (upto - 1) as nat);
        lemma_option_bounded(graph, s, edges[upto - 1], next_hold, state, rest, revealed, 7);
    }
}

/// After a move, no more piece orders are cleared than there are.
pub proof fn lemma_option_bounded(
    graph: &FrozenGigapan,
    s: Setting,
    next_board: Board,
    next_hold: Option<Shape>,
    state: QueueState,
    rest: Seq<Shape>,
    revealed: nat,
    upto: nat,
)
    ensures
        option_found(graph, s, next_board, next_hold, state, rest, revealed, upto)
            <= continuations_upto(s.bags, state, revealed, upto),
    decreases s.bags.len() - revealed, 1nat, upto,
{
    if upto == 0 || revealed >= s.bags.len() {
    } else {
        lemma_option_bounded(graph, s, next_board, next_hold, state, rest, revealed, (upto - 1) as nat);
        match drawn(s.bags, state, revealed as int, upto - 1) {
            Some(t) => {
                lemma_found_bounded(
                    graph,
                    s,
                    next_board,
                    next_hold,
                    t,
                    rest.push(Shape::at(upto - 1)),
                    revealed + 1,
                );
            },
            None => {},
        }
    }
}

/// A move that clears every piece order for each next shape clears as many
/// as there are.
pub proof fn lemma_full_option(
    graph: &FrozenGigapan,
    s: Setting,
    next_board: Board,
    next_hold: Option<Shape>,
    state: QueueState,
    rest: Seq<Shape>,
    revealed: nat,
    upto: nat,
)
    requires
        option_full(graph, s, next_board, next_hold, state, rest, revealed, upto),
        revealed < s.bags.len(),
    ensures
        option_found(graph, s, next_board, next_hold, state, rest, revealed, upto)
            == continuations_upto(s.bags, state, revealed, upto),
    decreases upto,
{
    if upto > 0 {
        lemma_full_option(graph, s, next_board, next_hold, state, rest, revealed, (upto - 1) as nat);
        assert(drawn(s.bags, state, revealed as int, upto - 1) is Some ==> true);
    }
}

/// The best over more boards is no less, and no less than what any one of
/// these boards gives that may be entered.
pub proof fn lemma_best_found_grows(
    graph: &FrozenGigapan,
    s: Setting,
    edges: Seq<Board>,
    next_hold: Option<Shape>,
    state: QueueState,
    rest: Seq<Shape>,
    revealed: nat,
    i: nat,
    upto: nat,
)
    requires
        i < upto,
        revealed < s.bags.len(),
    ensures
        best_found(graph, s, edges, next_hold, state, rest, revealed, i) <= best_found(
            graph,
            s,
            edges,
            next_hold,
            state,
            rest,
            revealed,
            upto,
        ),
        allowed(s.culled, edges[i as int]) ==> option_found(
            graph,
            s,
            edges[i as int],
            next_hold,
            state,
            rest,
            revealed,
            7,
        ) <= best_found(graph, s, edges, next_hold, state, rest, revealed, upto),
    decreases upto,
{
    if i + 1 < upto {
        lemma_best_found_grows(graph, s, edges, next_hold, state, rest, revealed, i, (upto - 1) as nat);
    }
}

/// What is found for fewer boards stays found for more.
pub proof fn lemma_edge_known_grows(
    graph: &FrozenGigapan,
    s: Setting,
    edges: Seq<Board>,
    next_hold: Option<Shape>,
    state: QueueState,
    rest: Seq<Shape>,
    revealed: nat,
    k: int,
    i: nat,
    upto: nat,
)
    requires
        i <= upto,
    ensures
        edge_known(graph, s, edges, next_hold, state, rest, revealed, k, i) ==> edge_known(
            graph,
            s,
            edges,
            next_hold,
            state,
            rest,
            revealed,
            k,
            upto,
        ),
    decreases upto,
{
    if i < upto {
        lemma_edge_known_grows(
            graph,
            s,
            edges,
            next_hold,
            state,
            rest,
            revealed,
            k,
            i,
            (upto - 1) as nat,
        );
    }
}


/// Before the end of the queue, the count of a position is learnt exactly
/// where it is learnt for each shape that can come next.
pub proof fn lemma_known_unfolds(
    graph: &FrozenGigapan,
    s: Setting,
    board: Board,
    hold: Option<Shape>,
    state: QueueState,
    queue: Seq<Shape>,
    revealed: nat,
)
    requires
        !(s.two_line && board == Board::spec_half()),
        revealed < s.bags.len(),
        queue.len() > 0,
    ensures
        known(graph, s, board, hold, state, queue, revealed) <==> forall|k: int|
            0 <= k < 7 && (#[trigger] drawn(s.bags, state, revealed as int, k)) is Some ==> slot_known(
                graph,
                s,
                board,
                hold,
                state,
                queue,
                revealed,
                k,
            ),
{
}

} // verus!
