//! What holds of the search at every position.

use vstd::prelude::*;
use crate::board::Board;
use crate::boardgraph::{successors, FrozenGigapan};
use crate::queue::QueueState;
use crate::see_model::{
    allowed, best_found, continuations, continuations_upto, drawn, endgame, found, hold_value,
    lemma_found_bounded, lemma_option_bounded, lemma_best_bounded, may_swap, option_found,
    place_value, skips_placing, swap_value, Setting,
};
use crate::shape::Shape;

verus! {

/// Whether the player clears every hidden piece order from this position
/// on: at the end of the queue the pieces in view can be played out; before
/// it some move that is looked at leads, whatever shape comes next, to a
/// position of which the same holds.
pub open spec fn clears_all(
    graph: &FrozenGigapan,
    s: Setting,
    board: Board,
    hold: Option<Shape>,
    state: QueueState,
    queue: Seq<Shape>,
    revealed: nat,
) -> bool
    decreases s.bags.len() - revealed, 3nat, 0nat,
{
    if s.two_line && board == Board::spec_half() {
        true
    } else if revealed >= s.bags.len() {
        endgame(graph, s, board, hold, queue)
    } else if queue.len() == 0 {
        false
    } else {
        ||| (s.use_hold && hold is None && move_clears_all(
            graph,
            s,
            board,
            Some(queue[0]),
            state,
            queue.skip(1),
            revealed,
        ))
        ||| (!skips_placing(s, hold, queue) && edge_clears_all(
            graph,
            s,
            successors(graph, board, queue[0]),
            hold,
            state,
            queue.skip(1),
            revealed,
            successors(graph, board, queue[0]).len(),
        ))
        ||| (may_swap(s, hold, queue) && edge_clears_all(
            graph,
            s,
            successors(graph, board, hold->0),
            Some(queue[0]),
            state,
            queue.skip(1),
            revealed,
            successors(graph, board, hold->0).len(),
        ))
    }
}

/// Whether a move to one of the first `upto` boards of `edges` that may be
/// entered clears every hidden piece order.
pub open spec fn edge_clears_all(
    graph: &FrozenGigapan,
    s: Setting,
    edges: Seq<Board>,
    next_hold: Option<Shape>,
    state: QueueState,
    rest: Seq<Shape>,
    revealed: nat,
    upto: nat,
) -> bool
    decreases s.bags.len() - revealed, 2nat, upto,
{
    upto > 0 && revealed < s.bags.len() && (edge_clears_all(
        graph,
        s,
        edges,
        next_hold,
        state,
        rest,
        revealed,
        (upto - 1) as nat,
    ) || (allowed(s.culled, edges[upto - 1]) && move_clears_all(
        graph,
        s,
        edges[upto - 1],
        next_hold,
        state,
        rest,
        revealed,
    )))
}

/// Whether, after a move to `next_board`, every hidden piece order is
/// cleared whatever shape comes next.
pub open spec fn move_clears_all(
    graph: &FrozenGigapan,
    s: Setting,
    next_board: Board,
    next_hold: Option<Shape>,
    state: QueueState,
    rest: Seq<Shape>,
    revealed: nat,
) -> bool
    decreases s.bags.len() - revealed, 1nat, 0nat,
{
    revealed < s.bags.len() && forall|k: int|
        0 <= k < 7 ==> ((#[trigger] drawn(s.bags, state, revealed as int, k)) matches Some(t)
            ==> clears_all(graph, s, next_board, next_hold, t, rest.push(Shape::at(k)), revealed + 1))
}

/// Whether the bags can always go on: from this state, and from every
/// state after it, there is a piece order to the end of the queue.
pub open spec fn live(s: Setting, state: QueueState, revealed: nat) -> bool
    decreases s.bags.len() - revealed,
{
    revealed >= s.bags.len() || (continuations(s.bags, state, revealed) > 0 && forall|k: int|
        0 <= k < 7 ==> ((#[trigger] drawn(s.bags, state, revealed as int, k)) matches Some(t)
            ==> live(s, t, revealed + 1)))
}

/// The player who clears every hidden piece order clears as many as there
/// are.
pub proof fn lemma_clears_all_is_full(
    graph: &FrozenGigapan,
    s: Setting,
    board: Board,
    hold: Option<Shape>,
    state: QueueState,
    queue: Seq<Shape>,
    revealed: nat,
)
    requires
        clears_all(graph, s, board, hold, state, queue, revealed),
    ensures
        found(graph, s, board, hold, state, queue, revealed) == continuations(s.bags, state, revealed),
    decreases s.bags.len() - revealed, 3nat, 0nat,
{
    lemma_found_bounded(graph, s, board, hold, state, queue, revealed);
    if s.two_line && board == Board::spec_half() {
    } else if revealed >= s.bags.len() {
    } else {
        let rest = queue.skip(1);
        if s.use_hold && hold is None && move_clears_all(
            graph,
            s,
            board,
            Some(queue[0]),
            state,
            rest,
            revealed,
        ) {
            lemma_move_clears_all_is_full(graph, s, board, Some(queue[0]), state, rest, revealed, 7);
        } else if !skips_placing(s, hold, queue) && edge_clears_all(
            graph,
            s,
            successors(graph, board, queue[0]),
            hold,
            state,
            rest,
            revealed,
            successors(graph, board, queue[0]).len(),
        ) {
            let edges = successors(graph, board, queue[0]);
            lemma_edge_clears_all_is_full(graph, s, edges, hold, state, rest, revealed, edges.len());
        } else {
            let edges = successors(graph, board, hold->0);
            lemma_edge_clears_all_is_full(
                graph,
                s,
                edges,
                Some(queue[0]),
                state,
                rest,
                revealed,
                edges.len(),
            );
        }
    }
}

/// Where a move among the first boards clears every hidden piece order,
/// the best of these moves clears as many as there are.
pub proof fn lemma_edge_clears_all_is_full(
    graph: &FrozenGigapan,
    s: Setting,
    edges: Seq<Board>,
    next_hold: Option<Shape>,
    state: QueueState,
    rest: Seq<Shape>,
    revealed: nat,
    upto: nat,
)
    requires
        edge_clears_all(graph, s, edges, next_hold, state, rest, revealed, upto),
    ensures
        best_found(graph, s, edges, next_hold, state, rest, revealed, upto) == continuations_upto(
            s.bags,
            state,
            revealed,
            7,
        ),
    decreases s.bags.len() - revealed, 2nat, upto,
{
    lemma_best_bounded(graph, s, edges, next_hold, state, rest, revealed, upto);
    lemma_best_bounded(graph, s, edges, next_hold, state, rest, revealed, (upto - 1) as nat);
    if edge_clears_all(graph, s, edges, next_hold, state, rest, revealed, (upto - 1) as nat) {
        lemma_edge_clears_all_is_full(
            graph,
            s,
            edges,
            next_hold,
            state,
            rest,
            revealed,
            (upto - 1) as nat,
        );
    } else {
        lemma_move_clears_all_is_full(
            graph,
            s,
            edges[upto - 1],
            next_hold,
            state,
            rest,
            revealed,
            7,
        );
    }
}

/// A move that clears every hidden piece order clears as many as there
/// are, for the first shapes as for all.
pub proof fn lemma_move_clears_all_is_full(
    graph: &FrozenGigapan,
    s: Setting,
    next_board: Board,
    next_hold: Option<Shape>,
    state: QueueState,
    rest: Seq<Shape>,
    revealed: nat,
    upto: nat,
)
    requires
        move_clears_all(graph, s, next_board, next_hold, state, rest, revealed),
        upto <= 7,
    ensures
        option_found(graph, s, next_board, next_hold, state, rest, revealed, upto)
            == continuations_upto(s.bags, state, revealed, upto),
    decreases s.bags.len() - revealed, 1nat, upto,
{
    if upto > 0 {
        lemma_move_clears_all_is_full(
            graph,
            s,
            next_board,
            next_hold,
            state,
            rest,
            revealed,
            (upto - 1) as nat,
        );
        match drawn(s.bags, state, revealed as int, upto - 1) {
            Some(t) => {
                lemma_clears_all_is_full(
                    graph,
                    s,
                    next_board,
                    next_hold,
                    t,
                    rest.push(Shape::at(upto - 1)),
                    revealed + 1,
                );
            },
            None => {},
        }
    }
}

/// Where the bags can always go on, the player who clears as many hidden
/// piece orders as there are clears every one of them.
pub proof fn lemma_full_clears_all(
    graph: &FrozenGigapan,
    s: Setting,
    board: Board,
    hold: Option<Shape>,
    state: QueueState,
    queue: Seq<Shape>,
    revealed: nat,
)
    requires
        live(s, state, revealed),
        queue.len() > 0,
        found(graph, s, board, hold, state, queue, revealed) == continuations(s.bags, state, revealed),
    ensures
        clears_all(graph, s, board, hold, state, queue, revealed),
    decreases s.bags.len() - revealed, 3nat, 0nat,
{
    if s.two_line && board == Board::spec_half() {
    } else if revealed >= s.bags.len() {
    } else {
        let rest = queue.skip(1);
        let total = continuations_upto(s.bags, state, revealed, 7);
        let by_hold = hold_value(graph, s, board, hold, state, queue, revealed);
        let by_place = place_value(graph, s, board, hold, state, queue, revealed);
        let by_swap = swap_value(graph, s, board, hold, state, queue, revealed);
        assert(total > 0);
        if by_hold == total {
            lemma_full_move_clears_all(graph, s, board, Some(queue[0]), state, rest, revealed);
        } else if by_place == total {
            let edges = successors(graph, board, queue[0]);
            lemma_full_edge_clears_all(graph, s, edges, hold, state, rest, revealed, edges.len());
        } else {
            let edges = successors(graph, board, hold->0);
            lemma_full_edge_clears_all(
                graph,
                s,
                edges,
                Some(queue[0]),
                state,
                rest,
                revealed,
                edges.len(),
            );
        }
    }
}

/// Where the best of the moves to the first boards clears as many hidden
/// piece orders as there are, one of these moves clears every one of them.
pub proof fn lemma_full_edge_clears_all(
    graph: &FrozenGigapan,
    s: Setting,
    edges: Seq<Board>,
    next_hold: Option<Shape>,
    state: QueueState,
    rest: Seq<Shape>,
    revealed: nat,
    upto: nat,
)
    requires
        live(s, state, revealed),
        revealed < s.bags.len(),
        best_found(graph, s, edges, next_hold, state, rest, revealed, upto) == continuations_upto(
            s.bags,
            state,
            revealed,
            7,
        ),
    ensures
        edge_clears_all(graph, s, edges, next_hold, state, rest, revealed, upto),
    decreases s.bags.len() - revealed, 2nat, upto,
{
    let total = continuations_upto(s.bags, state, revealed, 7);
    assert(total > 0);
    if upto > 0 {
        let before = best_found(graph, s, edges, next_hold, state, rest, revealed, (upto - 1) as nat);
        if before == total {
            lemma_full_edge_clears_all(
                graph,
                s,
                edges,
                next_hold,
                state,
                rest,
                revealed,
                (upto - 1) as nat,
            );
        } else {
            lemma_full_move_clears_all(graph, s, edges[upto - 1], next_hold, state, rest, revealed);
        }
    }
}

/// Where a move clears as many hidden piece orders as there are, it clears
/// every one of them, whatever shape comes next.
pub proof fn lemma_full_move_clears_all(
    graph: &FrozenGigapan,
    s: Setting,
    next_board: Board,
    next_hold: Option<Shape>,
    state: QueueState,
    rest: Seq<Shape>,
    revealed: nat,
)
    requires
        live(s, state, revealed),
        revealed < s.bags.len(),
        option_found(graph, s, next_board, next_hold, state, rest, revealed, 7) == continuations_upto(
            s.bags,
            state,
            revealed,
            7,
        ),
    ensures
        move_clears_all(graph, s, next_board, next_hold, state, rest, revealed),
    decreases s.bags.len() - revealed, 1nat, 0nat,
{
    assert forall|k: int| 0 <= k < 7 implies ((#[trigger] drawn(s.bags, state, revealed as int, k)) matches Some(
        t,
    ) ==> clears_all(graph, s, next_board, next_hold, t, rest.push(Shape::at(k)), revealed + 1)) by {
        match drawn(s.bags, state, revealed as int, k) {
            Some(t) => {
                lemma_full_sum(graph, s, next_board, next_hold, state, rest, revealed, 7, k);
                lemma_full_clears_all(
                    graph,
                    s,
                    next_board,
                    next_hold,
                    t,
                    rest.push(Shape::at(k)),
                    revealed + 1,
                );
            },
            None => {},
        }
    }
}

/// Where the sum over the first shapes is as large as it can be, so is each
/// of its terms.
pub proof fn lemma_full_sum(
    graph: &FrozenGigapan,
    s: Setting,
    next_board: Board,
    next_hold: Option<Shape>,
    state: QueueState,
    rest: Seq<Shape>,
    revealed: nat,
    upto: nat,
    k: int,
)
    requires
        revealed < s.bags.len(),
        0 <= k < upto,
        option_found(graph, s, next_board, next_hold, state, rest, revealed, upto)
            == continuations_upto(s.bags, state, revealed, upto),
    ensures
        drawn(s.bags, state, revealed as int, k) matches Some(t) ==> found(
            graph,
            s,
            next_board,
            next_hold,
            t,
            rest.push(Shape::at(k)),
            revealed + 1,
        ) == continuations(s.bags, t, revealed + 1),
    decreases upto,
{
    lemma_option_bounded(graph, s, next_board, next_hold, state, rest, revealed, (upto - 1) as nat);
    match drawn(s.bags, state, revealed as int, upto - 1) {
        Some(t) => {
            lemma_found_bounded(
                graph,
                s,
                next_board,
                next_hold,
                t,
                rest.push(Shape::at(upto - 1)),
                revealed + 1,
            );
        },
        None => {},
    }
    if k < upto - 1 {
        lemma_full_sum(
            graph,
            s,
            next_board,
            next_hold,
            state,
            rest,
            revealed,
            (upto - 1) as nat,
            k,
        );
    }
}

} // verus!
