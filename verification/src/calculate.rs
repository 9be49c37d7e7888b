//! The search: which hidden piece orders a player can always clear who sees
//! only a few pieces ahead.

use vstd::prelude::*;
use std::collections::VecDeque;
use crate::board::Board;
use crate::board_set::BoardSet;
use crate::boardgraph::{successors, FrozenGigapan};
use crate::queue::{Bag, QueueState};
use crate::see_model::{
    allowed, best_found, child_known, cleared, completable, completable_with_hold, continuations,
    continuations_upto, culled_view, drawn, edge_known, found, hold_value, known,
    lemma_best_found_grows, lemma_best_bounded, lemma_continuations_upto_grows,
    lemma_edge_known_grows, lemma_found_bounded, lemma_full_option, lemma_known_unfolds,
    lemma_option_bounded, may_swap, option_found, option_full, place_value, skips_placing,
    slot_known, swap_value, Setting,
};
use crate::shape::Shape;

verus! {

/// Whether `board` may be entered.
pub fn is_allowed(culled: Option<&BoardSet>, board: Board) -> (r: bool)
    ensures
        r == allowed(culled_view(culled), board),
{
    match culled {
        Some(set) => set.contains(board),
        None => true,
    }
}

/// Whether `board` counts as cleared.
pub fn is_cleared(board: Board, two_line: bool) -> (r: bool)
    ensures
        r == cleared(board, two_line),
{
    board == Board::full() || (two_line && board == Board::half())
}

/// Depth-first search: whether the pieces of `start_queue`, in this order
/// and without a hold, can lead from `start_board` to a cleared board. The
/// queue is used as a stack of work and is handed back as it was.
pub fn test_set_queue_without_hold(
    gigapan: &FrozenGigapan,
    culled: Option<&BoardSet>,
    start_board: Board,
    start_queue: &mut VecDeque<Shape>,
    two_line: bool,
) -> (r: bool)
    requires
        gigapan.wf(),
    ensures
        final(start_queue)@ == old(start_queue)@,
        r == completable(gigapan, culled_view(culled), start_board, old(start_queue)@, two_line),
    decreases old(start_queue)@.len(),
{
    if is_cleared(start_board, two_line) {
        return true;
    }
    let ghost whole = start_queue@;
    let use_shape = match start_queue.pop_front() {
        Some(shape) => shape,
        None => {
            return false;
        },
    };
    let ghost rest = start_queue@;
    assert(rest =~= whole.skip(1));
    let mut result = false;
    match gigapan.get(start_board) {
        Some(edges) => {
            let list = &edges[use_shape.index()];
            let ghost succ = successors(gigapan, start_board, use_shape);
            assert(list@ == succ);
            let mut i: usize = 0;
            while i < list.len() && !result
                invariant
                    gigapan.wf(),
                    i <= list.len(),
                    list@ == succ,
                    start_queue@ == rest,
                    result == exists|j: int|
                        0 <= j < i && allowed(culled_view(culled), #[trigger] succ[j]) && completable(
                            gigapan,
                            culled_view(culled),
                            succ[j],
                            rest,
                            two_line,
                        ),
                    rest.len() < whole.len(),
                    whole == old(start_queue)@,
                decreases list.len() - i,
            {
                let new_board = list[i];
                if is_allowed(culled, new_board) {
                    if test_set_queue_without_hold(
                        gigapan,
                        culled,
                        new_board,
                        start_queue,
                        two_line,
                    ) {
                        result = true;
                    }
                }
                i = i + 1;
            }
        },
        None => {},
    }
    start_queue.push_front(use_shape);
    assert(start_queue@ =~= whole);
    result
}

/// Depth-first search: whether the pieces of `start_queue` can lead from
/// `start_board` to a cleared board with `start_hold` held back. The queue
/// is used as a stack of work and is handed back as it was.
pub fn test_set_queue_with_hold(
    gigapan: &FrozenGigapan,
    culled: Option<&BoardSet>,
    start_board: Board,
    start_queue: &mut VecDeque<Shape>,
    start_hold: Shape,
    two_line: bool,
) -> (r: bool)
    requires
        gigapan.wf(),
    ensures
        final(start_queue)@ == old(start_queue)@,
        r == completable_with_hold(
            gigapan,
            culled_view(culled),
            start_board,
            old(start_queue)@,
            start_hold,
            two_line,
        ),
    decreases old(start_queue)@.len(),
{
    if is_cleared(start_board, two_line) {
        return true;
    }
    let ghost whole = start_queue@;
    let use_shape = match start_queue.pop_front() {
        Some(shape) => shape,
        None => {
            return false;
        },
    };
    let ghost rest = start_queue@;
    assert(rest =~= whole.skip(1));
    let mut result = false;
    match gigapan.get(start_board) {
        Some(edges) => {
            let list = &edges[use_shape.index()];
            let ghost succ = successors(gigapan, start_board, use_shape);
            assert(list@ == succ);
            let mut i: usize = 0;
            while i < list.len() && !result
                invariant
                    gigapan.wf(),
                    i <= list.len(),
                    list@ == succ,
                    start_queue@ == rest,
                    result == exists|j: int|
                        0 <= j < i && allowed(culled_view(culled), #[trigger] succ[j])
                            && completable_with_hold(
                            gigapan,
                            culled_view(culled),
                            succ[j],
                            rest,
                            start_hold,
                            two_line,
                        ),
                    rest.len() < whole.len(),
                    whole == old(start_queue)@,
                decreases list.len() - i,
            {
                let new_board = list[i];
                if is_allowed(culled, new_board) {
                    if test_set_queue_with_hold(
                        gigapan,
                        culled,
                        new_board,
                        start_queue,
                        start_hold,
                        two_line,
                    ) {
                        result = true;
                    }
                }
                i = i + 1;
            }
            if !result && start_hold != use_shape {
                let held = &edges[start_hold.index()];
                let ghost succ_held = successors(gigapan, start_board, start_hold);
                assert(held@ == succ_held);
                let mut i: usize = 0;
                while i < held.len() && !result
                    invariant
                        gigapan.wf(),
                        i <= held.len(),
                        held@ == succ_held,
                        start_queue@ == rest,
                        result == exists|j: int|
                            0 <= j < i && allowed(culled_view(culled), #[trigger] succ_held[j])
                                && completable_with_hold(
                                gigapan,
                                culled_view(culled),
                                succ_held[j],
                                rest,
                                use_shape,
                                two_line,
                            ),
                        rest.len() < whole.len(),
                        whole == old(start_queue)@,
                    decreases held.len() - i,
                {
                    let new_board = held[i];
                    if is_allowed(culled, new_board) {
                        if test_set_queue_with_hold(
                            gigapan,
                            culled,
                            new_board,
                            start_queue,
                            use_shape,
                            two_line,
                        ) {
                            result = true;
                        }
                    }
                    i = i + 1;
                }
            }
        },
        None => {},
    }
    start_queue.push_front(use_shape);
    assert(start_queue@ =~= whole);
    result
}


/// The seven states that piece `revealed` can lead to, one for each shape;
/// `None` for a shape that the bag cannot give.
fn next_states(counted_bags: &[(u8, Bag)], queue_state: QueueState, revealed: usize) -> (r: [Option<
    QueueState,
>; 7])
    requires
        revealed < counted_bags@.len(),
    ensures
        forall|k: int| 0 <= k < 7 ==> #[trigger] r@[k] == drawn(counted_bags@, queue_state, revealed as int, k),
{
    let entry = &counted_bags[revealed];
    let bag = &entry.1;
    let state = if entry.0 == 0 {
        queue_state.next(bag)
    } else {
        queue_state
    };
    [
        state.take(bag, Shape::I),
        state.take(bag, Shape::J),
        state.take(bag, Shape::L),
        state.take(bag, Shape::O),
        state.take(bag, Shape::S),
        state.take(bag, Shape::T),
        state.take(bag, Shape::Z),
    ]
}

/// The number of piece orders that the bags can give from piece
/// `revealed_pieces` on, in state `queue_state`; `None` where that number
/// is too large for a `usize`.
pub fn count_possible_queues(
    counted_bags: &[(u8, Bag)],
    queue_state: QueueState,
    revealed_pieces: usize,
) -> (r: Option<usize>)
    ensures
        r == (if continuations(counted_bags@, queue_state, revealed_pieces as nat) <= usize::MAX {
            Some(continuations(counted_bags@, queue_state, revealed_pieces as nat) as usize)
        } else {
            None
        }),
    decreases counted_bags@.len() - revealed_pieces,
{
    if revealed_pieces >= counted_bags.len() {
        return Some(1);
    }
    let next = next_states(counted_bags, queue_state, revealed_pieces);
    let after = revealed_pieces + 1;
    let mut count: usize = 0;
    let mut k: usize = 0;
    while k < 7
        invariant
            k <= 7,
            revealed_pieces < counted_bags@.len(),
            after == revealed_pieces + 1,
            forall|j: int|
                0 <= j < 7 ==> #[trigger] next@[j] == drawn(
                    counted_bags@,
                    queue_state,
                    revealed_pieces as int,
                    j,
                ),
            count == continuations_upto(counted_bags@, queue_state, revealed_pieces as nat, k as nat),
        decreases 7 - k,
    {
        match next[k] {
            Some(state) => {
                let more = count_possible_queues(counted_bags, state, after);
                proof {
                    lemma_continuations_upto_grows(
                        counted_bags@,
                        queue_state,
                        revealed_pieces as nat,
                        (k + 1) as nat,
                        7,
                    );
                }
                match more {
                    Some(more) => match count.checked_add(more) {
                        Some(sum) => {
                            count = sum;
                        },
                        None => {
                            return None;
                        },
                    },
                    None => {
                        return None;
                    },
                }
            },
            None => {},
        }
        k = k + 1;
    }
    Some(count)
}

/// The number of piece orders after the next piece turned out to be the
/// shape at `k`, as the search records it.
pub open spec fn count_at(bags: Seq<(u8, Bag)>, state: QueueState, revealed: nat, k: int) -> Option<
    usize,
> {
    Some(continuations(bags, drawn(bags, state, revealed as int, k)->0, revealed + 1) as usize)
}

/// A recorded number stays; where there is none, `value` is recorded if it
/// was learnt.
pub open spec fn recorded(before: Option<usize>, learnt: bool, value: Option<usize>) -> Option<
    usize,
> {
    if before is Some {
        before
    } else if learnt {
        value
    } else {
        None
    }
}

/// What one move gives: the piece orders cleared after it, summed over the
/// shapes that the next piece can turn out to be, and whether all of them
/// are cleared. For each such shape of which the number of piece orders is
/// learnt, and was not known before, `cutoffs` takes that number.
fn try_move(
    gigapan: &FrozenGigapan,
    culled: Option<&BoardSet>,
    next_board: Board,
    next_hold: Option<Shape>,
    use_hold: bool,
    two_line: bool,
    counted_bags: &[(u8, Bag)],
    queue_state: Ghost<QueueState>,
    next: &[Option<QueueState>; 7],
    queue: &mut VecDeque<Shape>,
    revealed_pieces: usize,
    cutoffs: &mut [Option<usize>; 7],
) -> (r: (usize, bool))
    requires
        gigapan.wf(),
        revealed_pieces < counted_bags@.len(),
        revealed_pieces < usize::MAX,
        forall|k: int|
            0 <= k < 7 ==> #[trigger] next@[k] == drawn(
                counted_bags@,
                queue_state@,
                revealed_pieces as int,
                k,
            ),
        continuations_upto(counted_bags@, queue_state@, revealed_pieces as nat, 7) <= usize::MAX,
    ensures
        final(queue)@ == old(queue)@,
        r.0 == option_found(
            gigapan,
            Setting { culled: culled_view(culled), use_hold, two_line, bags: counted_bags@ },
            next_board,
            next_hold,
            queue_state@,
            old(queue)@,
            revealed_pieces as nat,
            7,
        ),
        r.1 == option_full(
            gigapan,
            Setting { culled: culled_view(culled), use_hold, two_line, bags: counted_bags@ },
            next_board,
            next_hold,
            queue_state@,
            old(queue)@,
            revealed_pieces as nat,
            7,
        ),
        forall|k: int|
            0 <= k < 7 ==> #[trigger] final(cutoffs)@[k] == recorded(
                old(cutoffs)@[k],
                child_known(
                    gigapan,
                    Setting { culled: culled_view(culled), use_hold, two_line, bags: counted_bags@ },
                    next_board,
                    next_hold,
                    queue_state@,
                    old(queue)@,
                    revealed_pieces as nat,
                    k,
                ),
                count_at(counted_bags@, queue_state@, revealed_pieces as nat, k),
            ),
    decreases counted_bags@.len() - revealed_pieces, 0nat,
{
    let ghost s = Setting { culled: culled_view(culled), use_hold, two_line, bags: counted_bags@ };
    let ghost rest = queue@;
    let ghost before = cutoffs@;
    let ghost at = revealed_pieces as nat;
    let mut count: usize = 0;
    let mut full = true;
    let mut k: usize = 0;
    while k < 7
        invariant
            k <= 7,
            gigapan.wf(),
            at == revealed_pieces,
            revealed_pieces < counted_bags@.len(),
            revealed_pieces < usize::MAX,
            s == (Setting { culled: culled_view(culled), use_hold, two_line, bags: counted_bags@ }),
            forall|j: int|
                0 <= j < 7 ==> #[trigger] next@[j] == drawn(
                    counted_bags@,
                    queue_state@,
                    revealed_pieces as int,
                    j,
                ),
            continuations_upto(counted_bags@, queue_state@, at, 7) <= usize::MAX,
            queue@ == rest,
            before.len() == 7,
            count == option_found(gigapan, s, next_board, next_hold, queue_state@, rest, at, k as nat),
            count <= continuations_upto(counted_bags@, queue_state@, at, k as nat),
            full == option_full(gigapan, s, next_board, next_hold, queue_state@, rest, at, k as nat),
            forall|j: int| k <= j < 7 ==> #[trigger] cutoffs@[j] == before[j],
            forall|j: int|
                0 <= j < k ==> #[trigger] cutoffs@[j] == recorded(
                    before[j],
                    child_known(gigapan, s, next_board, next_hold, queue_state@, rest, at, j),
                    count_at(counted_bags@, queue_state@, at, j),
                ),
        decreases 7 - k,
    {
        proof {
            lemma_continuations_upto_grows(counted_bags@, queue_state@, at, (k + 1) as nat, 7);
            lemma_option_bounded(
                gigapan,
                s,
                next_board,
                next_hold,
                queue_state@,
                rest,
                at,
                (k + 1) as nat,
            );
            assert(next@[k as int] == drawn(counted_bags@, queue_state@, at as int, k as int));
        }
        match next[k] {
            Some(state) => {
                let shape = Shape::from_index(k).unwrap();
                queue.push_back(shape);
                let (next_count, possible) = max_limited_see_queues(
                    gigapan,
                    culled,
                    next_board,
                    next_hold,
                    use_hold,
                    two_line,
                    counted_bags,
                    state,
                    queue,
                    revealed_pieces + 1,
                );
                count = count + next_count;
                match possible {
                    Some(possible) => {
                        if next_count != possible {
                            full = false;
                        }
                        if cutoffs[k].is_none() {
                            cutoffs[k] = Some(possible);
                        }
                    },
                    None => {
                        full = false;
                    },
                }
                let popped = queue.pop_back();
                assert(queue@ =~= rest);
            },
            None => {},
        }
        proof {
            lemma_found_bounded(
                gigapan,
                s,
                next_board,
                next_hold,
                drawn(counted_bags@, queue_state@, at as int, k as int)->0,
                rest.push(Shape::at(k as int)),
                at + 1,
            );
        }
        k = k + 1;
    }
    (count, full)
}

/// What the moves to the boards of `list` give: the best of what each one
/// gives, and whether one of them clears every piece order, which ends the
/// search of the others. `cutoffs` takes what is learnt on the way.
fn try_moves(
    gigapan: &FrozenGigapan,
    culled: Option<&BoardSet>,
    list: &Vec<Board>,
    next_hold: Option<Shape>,
    use_hold: bool,
    two_line: bool,
    counted_bags: &[(u8, Bag)],
    queue_state: Ghost<QueueState>,
    next: &[Option<QueueState>; 7],
    queue: &mut VecDeque<Shape>,
    revealed_pieces: usize,
    cutoffs: &mut [Option<usize>; 7],
) -> (r: (usize, bool, Ghost<nat>))
    requires
        gigapan.wf(),
        revealed_pieces < counted_bags@.len(),
        revealed_pieces < usize::MAX,
        forall|k: int|
            0 <= k < 7 ==> #[trigger] next@[k] == drawn(
                counted_bags@,
                queue_state@,
                revealed_pieces as int,
                k,
            ),
        continuations_upto(counted_bags@, queue_state@, revealed_pieces as nat, 7) <= usize::MAX,
    ensures
        final(queue)@ == old(queue)@,
        r.2@ <= list@.len(),
        !r.1 ==> r.2@ == list@.len(),
        r.0 == best_found(
            gigapan,
            Setting { culled: culled_view(culled), use_hold, two_line, bags: counted_bags@ },
            list@,
            next_hold,
            queue_state@,
            old(queue)@,
            revealed_pieces as nat,
            r.2@,
        ),
        r.1 ==> r.0 == continuations_upto(counted_bags@, queue_state@, revealed_pieces as nat, 7),
        r.1 ==> forall|k: int|
            0 <= k < 7 && drawn(counted_bags@, queue_state@, revealed_pieces as int, k) is Some
                ==> (#[trigger] final(cutoffs)@[k]) is Some,
        forall|k: int|
            0 <= k < 7 ==> #[trigger] final(cutoffs)@[k] == recorded(
                old(cutoffs)@[k],
                edge_known(
                    gigapan,
                    Setting { culled: culled_view(culled), use_hold, two_line, bags: counted_bags@ },
                    list@,
                    next_hold,
                    queue_state@,
                    old(queue)@,
                    revealed_pieces as nat,
                    k,
                    r.2@,
                ),
                count_at(counted_bags@, queue_state@, revealed_pieces as nat, k),
            ),
    decreases counted_bags@.len() - revealed_pieces, 1nat,
{
    let ghost s = Setting { culled: culled_view(culled), use_hold, two_line, bags: counted_bags@ };
    let ghost rest = queue@;
    let ghost before = cutoffs@;
    let ghost at = revealed_pieces as nat;
    let mut max: usize = 0;
    let mut max_found = false;
    let mut i: usize = 0;
    while i < list.len() && !max_found
        invariant
            gigapan.wf(),
            i <= list.len(),
            queue@ == rest,
            before.len() == 7,
            at == revealed_pieces,
            revealed_pieces < counted_bags@.len(),
            revealed_pieces < usize::MAX,
            continuations_upto(counted_bags@, queue_state@, at, 7) <= usize::MAX,
            s == (Setting { culled: culled_view(culled), use_hold, two_line, bags: counted_bags@ }),
            forall|k: int|
                0 <= k < 7 ==> #[trigger] next@[k] == drawn(
                    counted_bags@,
                    queue_state@,
                    revealed_pieces as int,
                    k,
                ),
            max == best_found(gigapan, s, list@, next_hold, queue_state@, rest, at, i as nat),
            max_found ==> max == continuations_upto(counted_bags@, queue_state@, at, 7),
            max_found ==> forall|k: int|
                0 <= k < 7 && drawn(counted_bags@, queue_state@, at as int, k) is Some
                    ==> (#[trigger] cutoffs@[k]) is Some,
            forall|k: int|
                0 <= k < 7 ==> #[trigger] cutoffs@[k] == recorded(
                    before[k],
                    edge_known(gigapan, s, list@, next_hold, queue_state@, rest, at, k, i as nat),
                    count_at(counted_bags@, queue_state@, at, k),
                ),
        decreases list.len() - i,
    {
        let new_board = list[i];
        let ghost seen = cutoffs@;
        proof {
            lemma_best_bounded(gigapan, s, list@, next_hold, queue_state@, rest, at, i as nat);
        }
        if is_allowed(culled, new_board) {
            let (count, full) = try_move(
                gigapan,
                culled,
                new_board,
                next_hold,
                use_hold,
                two_line,
                counted_bags,
                Ghost(queue_state@),
                next,
                queue,
                revealed_pieces,
                cutoffs,
            );
            if count > max {
                max = count;
            }
            if full {
                max_found = true;
                proof {
                    lemma_full_option(gigapan, s, new_board, next_hold, queue_state@, rest, at, 7);
                    assert forall|k: int|
                        0 <= k < 7 && drawn(counted_bags@, queue_state@, at as int, k) is Some implies (
                    #[trigger] cutoffs@[k]) is Some by {
                        assert(child_known(
                            gigapan,
                            s,
                            new_board,
                            next_hold,
                            queue_state@,
                            rest,
                            at,
                            k,
                        ));
                    }
                }
            }
        }
        proof {
            assert forall|k: int| 0 <= k < 7 implies #[trigger] cutoffs@[k] == recorded(
                before[k],
                edge_known(gigapan, s, list@, next_hold, queue_state@, rest, at, k, (i + 1) as nat),
                count_at(counted_bags@, queue_state@, at, k),
            ) by {
                assert(seen[k] == recorded(
                    before[k],
                    edge_known(gigapan, s, list@, next_hold, queue_state@, rest, at, k, i as nat),
                    count_at(counted_bags@, queue_state@, at, k),
                ));
            }
        }
        i = i + 1;
    }
    (max, max_found, Ghost(i as nat))
}

/// The sum of the recorded numbers over the shapes that can come next;
/// `None` where one of them is missing.
fn sum_cutoffs(
    counted_bags: Ghost<Seq<(u8, Bag)>>,
    queue_state: Ghost<QueueState>,
    revealed: Ghost<nat>,
    next: &[Option<QueueState>; 7],
    cutoffs: &[Option<usize>; 7],
) -> (r: Option<usize>)
    requires
        revealed@ < counted_bags@.len(),
        continuations_upto(counted_bags@, queue_state@, revealed@, 7) <= usize::MAX,
        forall|k: int|
            0 <= k < 7 ==> #[trigger] next@[k] == drawn(
                counted_bags@,
                queue_state@,
                revealed@ as int,
                k,
            ),
        forall|k: int|
            0 <= k < 7 && (#[trigger] cutoffs@[k]) is Some ==> cutoffs@[k] == count_at(
                counted_bags@,
                queue_state@,
                revealed@,
                k,
            ) && drawn(counted_bags@, queue_state@, revealed@ as int, k) is Some,
    ensures
        r is Some <==> forall|k: int|
            0 <= k < 7 && drawn(counted_bags@, queue_state@, revealed@ as int, k) is Some
                ==> (#[trigger] cutoffs@[k]) is Some,
        r is Some ==> r->0 == continuations_upto(counted_bags@, queue_state@, revealed@, 7),
{
    let mut next_cutoff: usize = 0;
    let mut k: usize = 0;
    while k < 7
        invariant
            k <= 7,
            revealed@ < counted_bags@.len(),
            continuations_upto(counted_bags@, queue_state@, revealed@, 7) <= usize::MAX,
            forall|j: int|
                0 <= j < 7 ==> #[trigger] next@[j] == drawn(
                    counted_bags@,
                    queue_state@,
                    revealed@ as int,
                    j,
                ),
            forall|j: int|
                0 <= j < 7 && (#[trigger] cutoffs@[j]) is Some ==> cutoffs@[j] == count_at(
                    counted_bags@,
                    queue_state@,
                    revealed@,
                    j,
                ) && drawn(counted_bags@, queue_state@, revealed@ as int, j) is Some,
            forall|j: int|
                0 <= j < k && drawn(counted_bags@, queue_state@, revealed@ as int, j) is Some
                    ==> (#[trigger] cutoffs@[j]) is Some,
            next_cutoff == continuations_upto(counted_bags@, queue_state@, revealed@, k as nat),
        decreases 7 - k,
    {
        proof {
            lemma_continuations_upto_grows(counted_bags@, queue_state@, revealed@, (k + 1) as nat, 7);
            assert(next@[k as int] == drawn(counted_bags@, queue_state@, revealed@ as int, k as int));
        }
        if next[k].is_some() {
            match cutoffs[k] {
                Some(cutoff) => {
                    assert(cutoffs@[k as int] is Some);
                    next_cutoff = next_cutoff + cutoff;
                },
                None => {
                    assert(cutoffs@[k as int] is None);
                    return None;
                },
            }
        }
        k = k + 1;
    }
    Some(next_cutoff)
}

/// Depth-first search with cut-offs. Returns how many of the hidden piece
/// orders from piece `revealed_pieces` on the player clears with the best
/// play, the pieces of `queue` being in view; and how many such orders there
/// are, where the search learns it. A move after which all orders are
/// cleared ends the search of the other moves. The queue is used as a stack
/// of work and is handed back as it was.
pub fn max_limited_see_queues(
    gigapan: &FrozenGigapan,
    culled: Option<&BoardSet>,
    board: Board,
    hold: Option<Shape>,
    use_hold: bool,
    two_line: bool,
    counted_bags: &[(u8, Bag)],
    queue_state: QueueState,
    queue: &mut VecDeque<Shape>,
    revealed_pieces: usize,
) -> (r: (usize, Option<usize>))
    requires
        gigapan.wf(),
        old(queue)@.len() > 0,
        continuations(counted_bags@, queue_state, revealed_pieces as nat) <= usize::MAX,
    ensures
        final(queue)@ == old(queue)@,
        r.0 == found(
            gigapan,
            Setting { culled: culled_view(culled), use_hold, two_line, bags: counted_bags@ },
            board,
            hold,
            queue_state,
            old(queue)@,
            revealed_pieces as nat,
        ),
        r.1 == (if known(
            gigapan,
            Setting { culled: culled_view(culled), use_hold, two_line, bags: counted_bags@ },
            board,
            hold,
            queue_state,
            old(queue)@,
            revealed_pieces as nat,
        ) {
            Some(continuations(counted_bags@, queue_state, revealed_pieces as nat) as usize)
        } else {
            None
        }),
    decreases counted_bags@.len() - revealed_pieces, 3nat,
{
    let ghost s = Setting { culled: culled_view(culled), use_hold, two_line, bags: counted_bags@ };
    let ghost whole = queue@;
    let ghost at = revealed_pieces as nat;
    if two_line && board == Board::half() {
        let total = count_possible_queues(counted_bags, queue_state, revealed_pieces).unwrap();
        return (total, Some(total));
    }
    if revealed_pieces >= counted_bags.len() {
        let res = if use_hold {
            match hold {
                Some(held) => test_set_queue_with_hold(gigapan, culled, board, queue, held, two_line),
                None => {
                    let new_hold = queue.pop_front().unwrap();
                    assert(queue@ =~= whole.skip(1));
                    let res = test_set_queue_with_hold(
                        gigapan,
                        culled,
                        board,
                        queue,
                        new_hold,
                        two_line,
                    );
                    queue.push_front(new_hold);
                    assert(queue@ =~= whole);
                    res
                },
            }
        } else {
            test_set_queue_without_hold(gigapan, culled, board, queue, two_line)
        };
        return (if res { 1 } else { 0 }, Some(1));
    }
    search_moves(
        gigapan,
        culled,
        board,
        hold,
        use_hold,
        two_line,
        counted_bags,
        queue_state,
        queue,
        revealed_pieces,
    )
}

/// The search of one position before the end of the queue: the moves are
/// tried in turn, first holding the current piece, then placing it, then
/// placing the held piece.
#[verifier::rlimit(60)]
fn search_moves(
    gigapan: &FrozenGigapan,
    culled: Option<&BoardSet>,
    board: Board,
    hold: Option<Shape>,
    use_hold: bool,
    two_line: bool,
    counted_bags: &[(u8, Bag)],
    queue_state: QueueState,
    queue: &mut VecDeque<Shape>,
    revealed_pieces: usize,
) -> (r: (usize, Option<usize>))
    requires
        gigapan.wf(),
        old(queue)@.len() > 0,
        revealed_pieces < counted_bags@.len(),
        !(two_line && board == Board::spec_half()),
        continuations(counted_bags@, queue_state, revealed_pieces as nat) <= usize::MAX,
    ensures
        final(queue)@ == old(queue)@,
        r.0 == found(
            gigapan,
            Setting { culled: culled_view(culled), use_hold, two_line, bags: counted_bags@ },
            board,
            hold,
            queue_state,
            old(queue)@,
            revealed_pieces as nat,
        ),
        r.1 == (if known(
            gigapan,
            Setting { culled: culled_view(culled), use_hold, two_line, bags: counted_bags@ },
            board,
            hold,
            queue_state,
            old(queue)@,
            revealed_pieces as nat,
        ) {
            Some(continuations(counted_bags@, queue_state, revealed_pieces as nat) as usize)
        } else {
            None
        }),
    decreases counted_bags@.len() - revealed_pieces, 2nat,
{
    let ghost s = Setting { culled: culled_view(culled), use_hold, two_line, bags: counted_bags@ };
    let ghost whole = queue@;
    let ghost at = revealed_pieces as nat;
    let _ = counted_bags.len();
    let next = next_states(counted_bags, queue_state, revealed_pieces);
    let use_shape = queue.pop_front().unwrap();
    let ghost rest = queue@;
    assert(rest =~= whole.skip(1));
    assert(use_shape == whole[0]);
    let mut cutoffs: [Option<usize>; 7] = [None, None, None, None, None, None, None];
    let mut max: usize = 0;
    let mut oqb_skip = false;
    let mut max_found = false;
    let ghost best = found(gigapan, s, board, hold, queue_state, whole, at);
    let ghost by_hold = hold_value(gigapan, s, board, hold, queue_state, whole, at);
    let ghost by_place = place_value(gigapan, s, board, hold, queue_state, whole, at);
    let ghost by_swap = swap_value(gigapan, s, board, hold, queue_state, whole, at);
    let ghost total = continuations_upto(counted_bags@, queue_state, at, 7);
    let ghost place_edges = successors(gigapan, board, use_shape);
    let ghost swap_edges = successors(gigapan, board, hold->0);
    proof {
        lemma_found_bounded(gigapan, s, board, hold, queue_state, whole, at);
        assert(by_hold <= best && by_place <= best && by_swap <= best);
        assert(best <= total);
    }

    if use_hold && hold.is_none() {
        if queue.len() > 0 && queue[0] == use_shape {
            oqb_skip = true;
        }
        let (count, full) = try_move(
            gigapan,
            culled,
            board,
            Some(use_shape),
            use_hold,
            two_line,
            counted_bags,
            Ghost(queue_state),
            &next,
            queue,
            revealed_pieces,
            &mut cutoffs,
        );
        max = count;
        if full {
            max_found = true;
            proof {
                lemma_full_option(gigapan, s, board, Some(use_shape), queue_state, rest, at, 7);
                assert forall|k: int|
                    0 <= k < 7 && drawn(counted_bags@, queue_state, at as int, k) is Some implies (
                #[trigger] cutoffs@[k]) is Some by {
                    assert(child_known(
                        gigapan,
                        s,
                        board,
                        Some(use_shape),
                        queue_state,
                        rest,
                        at,
                        k,
                    ));
                }
            }
        }
    }
    let ghost first = cutoffs@;
    assert(oqb_skip == skips_placing(s, hold, whole));
    assert(max == by_hold);

    let ghost mut placed: nat = 0;
    if !oqb_skip && !max_found {
        match gigapan.get(board) {
            Some(edges) => {
                let (count, full, done) = try_moves(
                    gigapan,
                    culled,
                    &edges[use_shape.index()],
                    hold,
                    use_hold,
                    two_line,
                    counted_bags,
                    Ghost(queue_state),
                    &next,
                    queue,
                    revealed_pieces,
                    &mut cutoffs,
                );
                proof {
                    placed = done@;
                    if placed > 0 {
                        lemma_best_found_grows(
                            gigapan,
                            s,
                            place_edges,
                            hold,
                            queue_state,
                            rest,
                            at,
                            (placed - 1) as nat,
                            placed,
                        );
                    }
                    if placed < place_edges.len() {
                        lemma_best_found_grows(
                            gigapan,
                            s,
                            place_edges,
                            hold,
                            queue_state,
                            rest,
                            at,
                            placed,
                            place_edges.len(),
                        );
                    }
                }
                if count > max {
                    max = count;
                }
                if full {
                    max_found = true;
                }
            },
            None => {},
        }
    }
    let ghost second = cutoffs@;
    assert(forall|k: int|
        0 <= k < 7 ==> #[trigger] second[k] == recorded(
            first[k],
            edge_known(gigapan, s, place_edges, hold, queue_state, rest, at, k, placed),
            count_at(counted_bags@, queue_state, at, k),
        ));
    assert(max <= best);
    assert(max_found ==> max == total);
    assert(!max_found ==> max == (if by_hold >= by_place {
        by_hold
    } else {
        by_place
    }));
    assert(placed <= place_edges.len());
    assert(!max_found && !oqb_skip ==> placed == place_edges.len());
    assert(oqb_skip ==> placed == 0);

    let ghost mut swapped: nat = 0;
    if use_hold && hold.is_some() && !max_found {
        let held = hold.unwrap();
        if use_shape != held {
            match gigapan.get(board) {
                Some(edges) => {
                    let (count, full, done) = try_moves(
                        gigapan,
                        culled,
                        &edges[held.index()],
                        Some(use_shape),
                        use_hold,
                        two_line,
                        counted_bags,
                        Ghost(queue_state),
                        &next,
                        queue,
                        revealed_pieces,
                        &mut cutoffs,
                    );
                    proof {
                        swapped = done@;
                        if swapped < swap_edges.len() {
                            lemma_best_found_grows(
                                gigapan,
                                s,
                                swap_edges,
                                Some(use_shape),
                                queue_state,
                                rest,
                                at,
                                swapped,
                                swap_edges.len(),
                            );
                        }
                    }
                    if count > max {
                        max = count;
                    }
                    if full {
                        max_found = true;
                    }
                },
                None => {},
            }
        }
    }
    assert(forall|k: int|
        0 <= k < 7 ==> #[trigger] cutoffs@[k] == recorded(
            second[k],
            edge_known(gigapan, s, swap_edges, Some(use_shape), queue_state, rest, at, k, swapped),
            count_at(counted_bags@, queue_state, at, k),
        ));
    assert(max == best);
    assert(swapped <= swap_edges.len());
    assert(!max_found && may_swap(s, hold, whole) ==> swapped == swap_edges.len());
    assert(!may_swap(s, hold, whole) ==> swapped == 0);
    assert(max_found ==> forall|k: int|
        0 <= k < 7 && drawn(counted_bags@, queue_state, at as int, k) is Some
            ==> (#[trigger] cutoffs@[k]) is Some);

    queue.push_front(use_shape);
    assert(queue@ =~= whole);

    proof {
        assert forall|k: int| 0 <= k < 7 implies #[trigger] first[k] == recorded(
            None,
            use_hold && hold is None && child_known(
                gigapan,
                s,
                board,
                Some(use_shape),
                queue_state,
                rest,
                at,
                k,
            ),
            count_at(counted_bags@, queue_state, at, k),
        ) by {
        }
        lemma_cutoffs_tell(
            gigapan,
            s,
            board,
            hold,
            queue_state,
            whole,
            at,
            first,
            second,
            cutoffs@,
            placed,
            swapped,
            max_found,
        );
    }
    let sum = sum_cutoffs(Ghost(counted_bags@), Ghost(queue_state), Ghost(at), &next, &cutoffs);
    (max, sum)
}

/// What the recorded numbers tell at the end of the search of one position:
/// each is the number of piece orders after its shape, and all of them are
/// there exactly where the count of the position is learnt.
proof fn lemma_cutoffs_tell(
    graph: &FrozenGigapan,
    s: Setting,
    board: Board,
    hold: Option<Shape>,
    state: QueueState,
    queue: Seq<Shape>,
    revealed: nat,
    first: Seq<Option<usize>>,
    second: Seq<Option<usize>>,
    last: Seq<Option<usize>>,
    placed: nat,
    swapped: nat,
    max_found: bool,
)
    requires
        !(s.two_line && board == Board::spec_half()),
        revealed < s.bags.len(),
        queue.len() > 0,
        forall|k: int|
            0 <= k < 7 ==> #[trigger] first[k] == recorded(
                None,
                s.use_hold && hold is None && child_known(
                    graph,
                    s,
                    board,
                    Some(queue[0]),
                    state,
                    queue.skip(1),
                    revealed,
                    k,
                ),
                count_at(s.bags, state, revealed, k),
            ),
        forall|k: int|
            0 <= k < 7 ==> #[trigger] second[k] == recorded(
                first[k],
                edge_known(
                    graph,
                    s,
                    successors(graph, board, queue[0]),
                    hold,
                    state,
                    queue.skip(1),
                    revealed,
                    k,
                    placed,
                ),
                count_at(s.bags, state, revealed, k),
            ),
        forall|k: int|
            0 <= k < 7 ==> #[trigger] last[k] == recorded(
                second[k],
                edge_known(
                    graph,
                    s,
                    successors(graph, board, hold->0),
                    Some(queue[0]),
                    state,
                    queue.skip(1),
                    revealed,
                    k,
                    swapped,
                ),
                count_at(s.bags, state, revealed, k),
            ),
        placed <= successors(graph, board, queue[0]).len(),
        swapped <= successors(graph, board, hold->0).len(),
        skips_placing(s, hold, queue) ==> placed == 0,
        !may_swap(s, hold, queue) ==> swapped == 0,
        !max_found && !skips_placing(s, hold, queue) ==> placed == successors(
            graph,
            board,
            queue[0],
        ).len(),
        !max_found && may_swap(s, hold, queue) ==> swapped == successors(graph, board, hold->0).len(),
        max_found ==> forall|k: int|
            0 <= k < 7 && drawn(s.bags, state, revealed as int, k) is Some ==> (#[trigger] last[k]) is Some,
    ensures
        forall|k: int|
            0 <= k < 7 && (#[trigger] last[k]) is Some ==> last[k] == count_at(
                s.bags,
                state,
                revealed,
                k,
            ) && drawn(s.bags, state, revealed as int, k) is Some,
        known(graph, s, board, hold, state, queue, revealed) <==> forall|k: int|
            0 <= k < 7 && drawn(s.bags, state, revealed as int, k) is Some ==> (#[trigger] last[k]) is Some,
{
    let place_edges = successors(graph, board, queue[0]);
    let swap_edges = successors(graph, board, hold->0);
    let rest = queue.skip(1);
    lemma_known_unfolds(graph, s, board, hold, state, queue, revealed);
    assert forall|k: int| 0 <= k < 7 implies ((#[trigger] last[k]) is Some ==> last[k] == count_at(
        s.bags,
        state,
        revealed,
        k,
    ) && drawn(s.bags, state, revealed as int, k) is Some && slot_known(
        graph,
        s,
        board,
        hold,
        state,
        queue,
        revealed,
        k,
    )) && (!max_found && last[k] is None ==> !slot_known(
        graph,
        s,
        board,
        hold,
        state,
        queue,
        revealed,
        k,
    )) by {
        assert(first[k] == recorded(
            None,
            s.use_hold && hold is None && child_known(
                graph,
                s,
                board,
                Some(queue[0]),
                state,
                rest,
                revealed,
                k,
            ),
            count_at(s.bags, state, revealed, k),
        ));
        assert(second[k] == recorded(
            first[k],
            edge_known(graph, s, place_edges, hold, state, rest, revealed, k, placed),
            count_at(s.bags, state, revealed, k),
        ));
        lemma_edge_known_grows(
            graph,
            s,
            place_edges,
            hold,
            state,
            rest,
            revealed,
            k,
            placed,
            place_edges.len(),
        );
        lemma_edge_known_grows(
            graph,
            s,
            swap_edges,
            Some(queue[0]),
            state,
            rest,
            revealed,
            k,
            swapped,
            swap_edges.len(),
        );
        if drawn(s.bags, state, revealed as int, k) is None {
            lemma_edge_never_known(graph, s, place_edges, hold, state, rest, revealed, k, placed);
            lemma_edge_never_known(
                graph,
                s,
                swap_edges,
                Some(queue[0]),
                state,
                rest,
                revealed,
                k,
                swapped,
            );
        }
    }
    if known(graph, s, board, hold, state, queue, revealed) {
        assert forall|k: int|
            0 <= k < 7 && drawn(s.bags, state, revealed as int, k) is Some implies (#[trigger] last[k]) is Some by {
            assert(slot_known(graph, s, board, hold, state, queue, revealed, k));
        }
    }
    if forall|k: int|
        0 <= k < 7 && drawn(s.bags, state, revealed as int, k) is Some ==> (#[trigger] last[k]) is Some {
        assert forall|k: int|
            0 <= k < 7 && (#[trigger] drawn(s.bags, state, revealed as int, k)) is Some implies slot_known(
            graph,
            s,
            board,
            hold,
            state,
            queue,
            revealed,
            k,
        ) by {
            assert(last[k] is Some);
        }
    }
}

/// No move leads to a position with a shape that cannot come next.
proof fn lemma_edge_never_known(
    graph: &FrozenGigapan,
    s: Setting,
    edges: Seq<Board>,
    next_hold: Option<Shape>,
    state: QueueState,
    rest: Seq<Shape>,
    revealed: nat,
    k: int,
    upto: nat,
)
    requires
        drawn(s.bags, state, revealed as int, k) is None,
    ensures
        !edge_known(graph, s, edges, next_hold, state, rest, revealed, k, upto),
    decreases upto,
{
    if upto > 0 {
        lemma_edge_never_known(graph, s, edges, next_hold, state, rest, revealed, k, (upto - 1) as nat);
        assert(!child_known(graph, s, edges[upto - 1], next_hold, state, rest, revealed, k));
    }
}

} // verus!
