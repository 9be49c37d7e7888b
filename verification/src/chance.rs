//! The chance of a clear: for each order of the pieces in view at the start,
//! how many of the hidden orders behind it the player clears.

use vstd::prelude::*;
use std::collections::VecDeque;
use crate::board::Board;
use crate::board_set::BoardSet;
use crate::boardgraph::FrozenGigapan;
use crate::calculate::{count_possible_queues, max_limited_see_queues};
use crate::combinatoric::CombinatoricQueue;
use crate::culling::{culled_boards, ends_in_one_board, get_culled_boards};
use crate::permute::{copy_queue, get_queue_permutations, orders_of, permutations};
use crate::queue::{Bag, QueueState};
use crate::see_model::{continuations, culled_view, drawn, found, known, Setting};
use crate::shape::Shape;

verus! {

/// What the search found behind one order of the pieces in view.
pub struct Outcome {
    /// The pieces in view at the start, the held one first where the search
    /// starts with a piece in the hold.
    pub queue: VecDeque<Shape>,
    /// The number of hidden orders that the player clears.
    pub covered: usize,
    /// The number of hidden orders, where the search learnt it.
    pub maximum: Option<usize>,
}

/// Why no chance can be given.
#[derive(Clone, Copy, Debug, PartialEq, Eq)]
pub enum ChanceError {
    /// The pieces of the queue, less the one that stays in the hold, do not
    /// fill the board exactly.
    BadQueueLen,
    /// More pieces are to be in view than the queue has.
    TooManyPreviews,
    /// The queue does not lead to one board and no other.
    NoSingleEnd,
    /// There are more piece orders than a `usize` can count, or an order
    /// cannot be followed through the bags.
    TooManyQueues,
}

/// The state of the bags after the first `upto` pieces of `order` were
/// drawn, from the full window of the first bag; `None` where the bags
/// cannot give these pieces.
pub open spec fn replay(bags: Seq<(u8, Bag)>, order: Seq<Shape>, upto: nat) -> Option<QueueState>
    decreases upto,
{
    if upto == 0 {
        Some(QueueState(bags[0].1.full))
    } else {
        match replay(bags, order, (upto - 1) as nat) {
            Some(state) => drawn(
                bags,
                state,
                upto - 1,
                order[upto - 1].spec_index() as int,
            ),
            None => None,
        }
    }
}

/// The piece held at the start.
pub open spec fn first_hold(order: Seq<Shape>, init_hold: bool) -> Option<Shape> {
    if init_hold {
        Some(order[0])
    } else {
        None
    }
}

/// The pieces in view at the start, without the held one.
pub open spec fn first_view(order: Seq<Shape>, init_hold: bool) -> Seq<Shape> {
    if init_hold {
        order.skip(1)
    } else {
        order
    }
}

/// Whether the search can be run behind `order`: the bags can give these
/// pieces, a piece stays in view, and the hidden orders can be counted.
pub open spec fn searchable(bags: Seq<(u8, Bag)>, order: Seq<Shape>, init_hold: bool) -> bool {
    &&& order.len() <= bags.len()
    &&& first_view(order, init_hold).len() > 0
    &&& (init_hold ==> order.len() > 0)
    &&& replay(bags, order, order.len()) matches Some(state) && continuations(
        bags,
        state,
        order.len(),
    ) <= usize::MAX
}

/// Follows `order` through the bags; `None` where they cannot give it.
pub fn replay_order(counted_bags: &[(u8, Bag)], order: &VecDeque<Shape>) -> (r: Option<QueueState>)
    requires
        counted_bags@.len() > 0,
        order@.len() <= counted_bags@.len(),
    ensures
        r == replay(counted_bags@, order@, order@.len()),
{
    let mut state = QueueState(counted_bags[0].1.full);
    let mut i: usize = 0;
    while i < order.len()
        invariant
            i <= order@.len() <= counted_bags@.len(),
            replay(counted_bags@, order@, i as nat) == Some(state),
        decreases order@.len() - i,
    {
        let entry = &counted_bags[i];
        let refilled = if entry.0 == 0 {
            state.next(&entry.1)
        } else {
            state
        };
        proof {
            crate::shape::lemma_shape_index(order@[i as int]);
        }
        match refilled.take(&entry.1, order[i]) {
            Some(next) => {
                state = next;
            },
            None => {
                proof {
                    lemma_replay_stays_none(counted_bags@, order@, (i + 1) as nat, order@.len());
                }
                return None;
            },
        }
        i = i + 1;
    }
    Some(state)
}

/// Once the bags cannot give a piece, they cannot give the pieces after it.
pub proof fn lemma_replay_stays_none(bags: Seq<(u8, Bag)>, order: Seq<Shape>, at: nat, upto: nat)
    requires
        at <= upto,
        replay(bags, order, at) is None,
    ensures
        replay(bags, order, upto) is None,
    decreases upto,
{
    if at < upto {
        lemma_replay_stays_none(bags, order, at, (upto - 1) as nat);
    }
}

/// The search behind one order of the pieces in view at the start: how many
/// hidden orders the player clears, and how many there are, where the
/// search learns it. `None` where the search cannot be run behind this
/// order.
pub fn solve_visible(
    gigapan: &FrozenGigapan,
    culled: Option<&BoardSet>,
    board: Board,
    counted_bags: &[(u8, Bag)],
    order: &VecDeque<Shape>,
    init_hold: bool,
    use_hold: bool,
    two_line: bool,
) -> (r: Option<(usize, Option<usize>)>)
    requires
        gigapan.wf(),
        counted_bags@.len() > 0,
    ensures
        r is Some <==> searchable(counted_bags@, order@, init_hold),
        r matches Some(pair) ==> {
            let s = Setting { culled: culled_view(culled), use_hold, two_line, bags: counted_bags@ };
            let state = replay(counted_bags@, order@, order@.len())->0;
            &&& pair.0 == found(
                gigapan,
                s,
                board,
                first_hold(order@, init_hold),
                state,
                first_view(order@, init_hold),
                order@.len(),
            )
            &&& pair.1 == (if known(
                gigapan,
                s,
                board,
                first_hold(order@, init_hold),
                state,
                first_view(order@, init_hold),
                order@.len(),
            ) {
                Some(continuations(counted_bags@, state, order@.len()) as usize)
            } else {
                None
            })
        },
{
    if order.len() > counted_bags.len() {
        return None;
    }
    if order.len() == 0 || (init_hold && order.len() == 1) {
        return None;
    }
    let state = match replay_order(counted_bags, order) {
        Some(state) => state,
        None => {
            return None;
        },
    };
    let revealed_pieces = order.len();
    if count_possible_queues(counted_bags, state, revealed_pieces).is_none() {
        return None;
    }
    let mut queue = copy_queue(order);
    let hold = if init_hold {
        let first = queue.pop_front();
        assert(queue@ =~= order@.skip(1));
        first
    } else {
        None
    };
    let passed = max_limited_see_queues(
        gigapan,
        culled,
        board,
        hold,
        use_hold,
        two_line,
        counted_bags,
        state,
        &mut queue,
        revealed_pieces,
    );
    Some(passed)
}

/// Whether an outcome belongs to a search that was run behind the order it
/// holds.
pub open spec fn outcome_of(
    gigapan: &FrozenGigapan,
    culled: Option<Set<Board>>,
    board: Board,
    bags: Seq<(u8, Bag)>,
    init_hold: bool,
    use_hold: bool,
    two_line: bool,
    outcome: Outcome,
) -> bool {
    let s = Setting { culled, use_hold, two_line, bags };
    let order = outcome.queue@;
    &&& searchable(bags, order, init_hold)
    &&& outcome.covered == found(
        gigapan,
        s,
        board,
        first_hold(order, init_hold),
        replay(bags, order, order.len())->0,
        first_view(order, init_hold),
        order.len(),
    )
    &&& outcome.maximum == (if known(
        gigapan,
        s,
        board,
        first_hold(order, init_hold),
        replay(bags, order, order.len())->0,
        first_view(order, init_hold),
        order.len(),
    ) {
        Some(continuations(bags, replay(bags, order, order.len())->0, order.len()) as usize)
    } else {
        None
    })
}

/// The orders that outcomes belong to.
pub open spec fn outcome_orders(outcomes: Seq<Outcome>) -> Seq<Seq<Shape>> {
    outcomes.map_values(|o: Outcome| o.queue@)
}

/// The number of pieces in view at the start, the held one counted in.
pub open spec fn visible_count(previews: usize, init_hold: bool) -> nat {
    (previews + 1 + if init_hold {
        1nat
    } else {
        0nat
    }) as nat
}

/// The search behind every order of the pieces in view at the start, in the
/// order in which the bags give them. The search may enter the boards of
/// `culled` only, where there is such a set.
pub fn search_all(
    gigapan: &FrozenGigapan,
    culled: Option<&BoardSet>,
    board: Board,
    counted_bags: &[(u8, Bag)],
    previews: usize,
    init_hold: bool,
    use_hold: bool,
    two_line: bool,
) -> (r: Result<Vec<Outcome>, ChanceError>)
    requires
        gigapan.wf(),
        counted_bags@.len() > 0,
    ensures
        match r {
            Ok(outcomes) => {
                &&& visible_count(previews, init_hold) <= counted_bags@.len()
                &&& outcome_orders(outcomes@) == permutations(
                    counted_bags@,
                    QueueState(counted_bags@[0].1.full),
                    0,
                    visible_count(previews, init_hold),
                )
                &&& forall|i: int|
                    0 <= i < outcomes@.len() ==> outcome_of(
                        gigapan,
                        culled_view(culled),
                        board,
                        counted_bags@,
                        init_hold,
                        use_hold,
                        two_line,
                        #[trigger] outcomes@[i],
                    )
            },
            Err(ChanceError::TooManyPreviews) => visible_count(previews, init_hold)
                > counted_bags@.len(),
            Err(ChanceError::TooManyQueues) => visible_count(previews, init_hold)
                <= counted_bags@.len() && exists|i: int|
                0 <= i < permutations(
                    counted_bags@,
                    QueueState(counted_bags@[0].1.full),
                    0,
                    visible_count(previews, init_hold),
                ).len() && !searchable(
                    counted_bags@,
                    #[trigger] permutations(
                        counted_bags@,
                        QueueState(counted_bags@[0].1.full),
                        0,
                        visible_count(previews, init_hold),
                    )[i],
                    init_hold,
                ),
            Err(_) => false,
        },
{
    let extra: usize = if init_hold {
        2
    } else {
        1
    };
    if previews >= counted_bags.len() || counted_bags.len() - previews < extra {
        return Err(ChanceError::TooManyPreviews);
    }
    let depth = previews + extra;
    let orders = get_queue_permutations(counted_bags, None, Some(depth));
    let ghost expected = permutations(
        counted_bags@,
        QueueState(counted_bags@[0].1.full),
        0,
        depth as nat,
    );
    let mut outcomes: Vec<Outcome> = Vec::new();
    let mut i: usize = 0;
    assert(depth == visible_count(previews, init_hold));
    assert(outcome_orders(outcomes@) =~= expected.take(0));
    while i < orders.len()
        invariant
            i <= orders@.len(),
            gigapan.wf(),
            counted_bags@.len() > 0,
            orders_of(orders@) == expected,
            visible_count(previews, init_hold) <= counted_bags@.len(),
            expected == permutations(
                counted_bags@,
                QueueState(counted_bags@[0].1.full),
                0,
                visible_count(previews, init_hold),
            ),
            outcome_orders(outcomes@) == expected.take(i as int),
            forall|j: int|
                0 <= j < outcomes@.len() ==> outcome_of(
                    gigapan,
                    culled_view(culled),
                    board,
                    counted_bags@,
                    init_hold,
                    use_hold,
                    two_line,
                    #[trigger] outcomes@[j],
                ),
        decreases orders@.len() - i,
    {
        let order = &orders[i];
        assert(order@ == expected[i as int]);
        match solve_visible(
            gigapan,
            culled,
            board,
            counted_bags,
            order,
            init_hold,
            use_hold,
            two_line,
        ) {
            Some(passed) => {
                let queue = copy_queue(order);
                let ghost before = outcomes@;
                outcomes.push(Outcome { queue, covered: passed.0, maximum: passed.1 });
                proof {
                    assert(outcome_orders(before).len() == before.len());
                    assert(before.len() == i);
                    assert forall|j: int| 0 <= j < i + 1 implies outcome_orders(outcomes@)[j]
                        == expected.take(i + 1)[j] by {
                        if j < i {
                            assert(outcomes@[j] == before[j]);
                            assert(outcome_orders(before)[j] == expected.take(i as int)[j]);
                        }
                    }
                    assert(outcome_orders(outcomes@) =~= expected.take(i + 1));
                    assert forall|j: int| 0 <= j < outcomes@.len() implies outcome_of(
                        gigapan,
                        culled_view(culled),
                        board,
                        counted_bags@,
                        init_hold,
                        use_hold,
                        two_line,
                        #[trigger] outcomes@[j],
                    ) by {
                        if j < before.len() {
                            assert(outcomes@[j] == before[j]);
                        }
                    }
                }
            },
            None => {
                proof {
                    assert(!searchable(counted_bags@, expected[i as int], init_hold));
                }
                return Err(ChanceError::TooManyQueues);
            },
        }
        i = i + 1;
    }
    assert(expected.take(expected.len() as int) =~= expected);
    Ok(outcomes)
}

/// The sum of what the first `upto` outcomes cover.
pub open spec fn covered_sum(outcomes: Seq<Outcome>, upto: nat) -> nat
    decreases upto,
{
    if upto == 0 {
        0
    } else {
        covered_sum(outcomes, (upto - 1) as nat) + outcomes[upto - 1].covered as nat
    }
}

/// Whether an outcome falls short: the player does not clear all the
/// hidden orders that the search knows of. Where the search did not learn
/// their number, it counts as none.
pub open spec fn falls_short(outcome: Outcome) -> bool {
    outcome.covered != (match outcome.maximum {
        Some(maximum) => maximum,
        None => 0,
    })
}

/// The positions among the first `upto` outcomes of those that fall short.
pub open spec fn short_falls(outcomes: Seq<Outcome>, upto: nat) -> Seq<int>
    decreases upto,
{
    if upto == 0 {
        Seq::empty()
    } else if falls_short(outcomes[upto - 1]) {
        short_falls(outcomes, (upto - 1) as nat).push(upto - 1)
    } else {
        short_falls(outcomes, (upto - 1) as nat)
    }
}

/// The number of hidden orders that the player clears, summed over all
/// outcomes, and the positions of the outcomes that fall short; `None`
/// where the sum is too large for a `usize`.
pub fn tally(outcomes: &Vec<Outcome>) -> (r: Option<(usize, Vec<usize>)>)
    ensures
        r is Some <==> covered_sum(outcomes@, outcomes@.len()) <= usize::MAX,
        r matches Some(pair) ==> pair.0 == covered_sum(outcomes@, outcomes@.len()) && pair.1@.map_values(
            |i: usize| i as int,
        ) == short_falls(outcomes@, outcomes@.len()),
{
    let mut total: usize = 0;
    let mut fails: Vec<usize> = Vec::new();
    let mut i: usize = 0;
    assert(fails@.map_values(|i: usize| i as int) =~= short_falls(outcomes@, 0));
    while i < outcomes.len()
        invariant
            i <= outcomes@.len(),
            total == covered_sum(outcomes@, i as nat),
            fails@.map_values(|i: usize| i as int) == short_falls(outcomes@, i as nat),
        decreases outcomes@.len() - i,
    {
        let outcome = &outcomes[i];
        match total.checked_add(outcome.covered) {
            Some(sum) => {
                total = sum;
            },
            None => {
                proof {
                    lemma_covered_sum_grows(outcomes@, (i + 1) as nat, outcomes@.len());
                }
                return None;
            },
        }
        let maximum = match outcome.maximum {
            Some(maximum) => maximum,
            None => 0,
        };
        if outcome.covered != maximum {
            let ghost before = fails@;
            fails.push(i);
            assert(fails@.map_values(|i: usize| i as int) =~= before.map_values(
                |i: usize| i as int,
            ).push(i as int));
        }
        i = i + 1;
    }
    Some((total, fails))
}

/// The sum over more outcomes is no smaller.
pub proof fn lemma_covered_sum_grows(outcomes: Seq<Outcome>, lo: nat, hi: nat)
    requires
        lo <= hi,
    ensures
        covered_sum(outcomes, lo) <= covered_sum(outcomes, hi),
    decreases hi,
{
    if lo < hi {
        lemma_covered_sum_grows(outcomes, lo, (hi - 1) as nat);
    }
}

/// What `limited_see_chance` reports.
pub struct ChanceReport {
    /// The outcome for each order of the pieces in view at the start.
    pub outcomes: Vec<Outcome>,
    /// The positions of the outcomes that fall short.
    pub fails: Vec<usize>,
    /// The number of hidden orders that the player clears, over all
    /// outcomes.
    pub passing: usize,
}

/// Whether the pieces of the queue, less the one that stays in the hold,
/// fill the board exactly.
pub open spec fn fills_board(board: Board, pieces: nat) -> bool {
    pieces >= 1 && board.spec_count() + 4 * (pieces - 1) == 40
}

/// The set that the search is held to.
pub open spec fn culled_for(
    gigapan: &FrozenGigapan,
    board: Board,
    bags: Seq<(u8, Bag)>,
    use_hold: bool,
    generate_culled: bool,
) -> Option<Set<Board>> {
    if generate_culled {
        Some(culled_boards(gigapan, board, bags, use_hold))
    } else {
        None
    }
}

/// The orders of the pieces in view at the start.
pub open spec fn first_orders(bags: Seq<(u8, Bag)>, previews: usize, init_hold: bool) -> Seq<
    Seq<Shape>,
> {
    permutations(bags, QueueState(bags[0].1.full), 0, visible_count(previews, init_hold))
}

/// Whether `r` is the right report for the bags of a queue. It is an error
/// where the queue does not fill the board; else where a culled set is
/// asked for and the queue does not lead to one board; else where more
/// pieces are to be in view than there are; else where the search cannot
/// be run behind some order, or the number of cleared orders cannot be
/// summed up. Else it holds the outcome of the search behind each order,
/// their sum, and which of them fall short.
pub open spec fn is_report(
    gigapan: &FrozenGigapan,
    board: Board,
    bags: Seq<(u8, Bag)>,
    previews: usize,
    init_hold: bool,
    use_hold: bool,
    generate_culled: bool,
    two_line: bool,
    r: Result<ChanceReport, ChanceError>,
) -> bool {
    let culled = culled_for(gigapan, board, bags, use_hold, generate_culled);
    let orders = first_orders(bags, previews, init_hold);
    if !fills_board(board, bags.len()) {
        r == Err::<ChanceReport, ChanceError>(ChanceError::BadQueueLen)
    } else if generate_culled && !ends_in_one_board(gigapan, board, bags, use_hold) {
        r == Err::<ChanceReport, ChanceError>(ChanceError::NoSingleEnd)
    } else if visible_count(previews, init_hold) > bags.len() {
        r == Err::<ChanceReport, ChanceError>(ChanceError::TooManyPreviews)
    } else if exists|i: int| 0 <= i < orders.len() && !searchable(bags, #[trigger] orders[i], init_hold) {
        r == Err::<ChanceReport, ChanceError>(ChanceError::TooManyQueues)
    } else {
        match r {
            Ok(report) => {
                &&& outcome_orders(report.outcomes@) == orders
                &&& forall|i: int|
                    0 <= i < report.outcomes@.len() ==> outcome_of(
                        gigapan,
                        culled,
                        board,
                        bags,
                        init_hold,
                        use_hold,
                        two_line,
                        #[trigger] report.outcomes@[i],
                    )
                &&& report.passing == covered_sum(report.outcomes@, report.outcomes@.len())
                &&& report.fails@.map_values(|i: usize| i as int) == short_falls(
                    report.outcomes@,
                    report.outcomes@.len(),
                )
            },
            Err(e) => e == ChanceError::TooManyQueues && exists|outcomes: Seq<Outcome>|
                {
                    &&& outcome_orders(outcomes) == orders
                    &&& forall|i: int|
                        0 <= i < outcomes.len() ==> outcome_of(
                            gigapan,
                            culled,
                            board,
                            bags,
                            init_hold,
                            use_hold,
                            two_line,
                            #[trigger] outcomes[i],
                        )
                    &&& covered_sum(outcomes, outcomes.len()) > usize::MAX
                },
        }
    }
}

/// The chance of a clear for the bags of a queue; see [`is_report`].
pub fn chance_of(
    gigapan: &FrozenGigapan,
    board: Board,
    counted_bags: &[(u8, Bag)],
    previews: usize,
    init_hold: bool,
    use_hold: bool,
    generate_culled: bool,
    two_line: bool,
) -> (r: Result<ChanceReport, ChanceError>)
    requires
        gigapan.wf(),
    ensures
        is_report(
            gigapan,
            board,
            counted_bags@,
            previews,
            init_hold,
            use_hold,
            generate_culled,
            two_line,
            r,
        ),
{
    if counted_bags.len() == 0 {
        return Err(ChanceError::BadQueueLen);
    }
    let piece_count: usize = counted_bags.len() - 1;
    if piece_count > 10 || (board.count() as usize) + piece_count * 4 != 40 {
        return Err(ChanceError::BadQueueLen);
    }
    let culled = if generate_culled {
        match get_culled_boards(gigapan, board, counted_bags, use_hold) {
            Some(culled) => Some(culled),
            None => {
                return Err(ChanceError::NoSingleEnd);
            },
        }
    } else {
        None
    };
    let culled_ref = culled.as_ref();
    let outcomes = match search_all(
        gigapan,
        culled_ref,
        board,
        counted_bags,
        previews,
        init_hold,
        use_hold,
        two_line,
    ) {
        Ok(outcomes) => outcomes,
        Err(e) => {
            proof {
                let orders = first_orders(counted_bags@, previews, init_hold);
                if e == ChanceError::TooManyQueues {
                    let i = choose|i: int|
                        0 <= i < permutations(
                            counted_bags@,
                            QueueState(counted_bags@[0].1.full),
                            0,
                            visible_count(previews, init_hold),
                        ).len() && !searchable(
                            counted_bags@,
                            #[trigger] permutations(
                                counted_bags@,
                                QueueState(counted_bags@[0].1.full),
                                0,
                                visible_count(previews, init_hold),
                            )[i],
                            init_hold,
                        );
                    assert(0 <= i < orders.len() && !searchable(counted_bags@, orders[i], init_hold));
                }
            }
            return Err(e);
        },
    };
    proof {
        let orders = first_orders(counted_bags@, previews, init_hold);
        assert forall|i: int| 0 <= i < orders.len() implies searchable(
            counted_bags@,
            #[trigger] orders[i],
            init_hold,
        ) by {
            assert(outcome_orders(outcomes@)[i] == orders[i]);
            assert(outcome_of(
                gigapan,
                culled_view(culled_ref),
                board,
                counted_bags@,
                init_hold,
                use_hold,
                two_line,
                outcomes@[i],
            ));
        }
    }
    match tally(&outcomes) {
        Some((passing, fails)) => Ok(ChanceReport { outcomes, fails, passing }),
        None => Err(ChanceError::TooManyQueues),
    }
}

/// Whether `bags` is the queue `queue` piece by piece.
pub open spec fn flattens(queue: Seq<crate::combinatoric::BagSpec>, bags: Seq<(u8, Bag)>) -> bool {
    &&& bags.len() == crate::combinatoric::counted_slots(queue).len()
    &&& forall|i: int|
        0 <= i < bags.len() ==> (#[trigger] bags[i]).0 == crate::combinatoric::counted_slots(
            queue,
        )[i].index && bags[i].1.models(
            crate::combinatoric::counted_slots(queue)[i].shapes,
            crate::combinatoric::counted_slots(queue)[i].count as u8,
        )
}

/// The chance of a clear for a player who sees `previews` pieces beyond the
/// current one: the search is run behind every order of the pieces in view
/// at the start, with a culled set where `generate_culled` asks for one.
/// With `init_hold` the first piece is in the hold at the start.
pub fn limited_see_chance(
    gigapan: &FrozenGigapan,
    board: Board,
    combinatoric_queue: &CombinatoricQueue,
    previews: usize,
    init_hold: bool,
    use_hold: bool,
    generate_culled: bool,
    two_line: bool,
) -> (r: Result<ChanceReport, ChanceError>)
    requires
        gigapan.wf(),
        combinatoric_queue.wf(),
    ensures
        exists|bags: Seq<(u8, Bag)>|
            flattens(combinatoric_queue@, bags) && #[trigger] is_report(
                gigapan,
                board,
                bags,
                previews,
                init_hold,
                use_hold,
                generate_culled,
                two_line,
                r,
            ),
{
    let counted_bags = combinatoric_queue.get_counted_bags();
    let r = chance_of(
        gigapan,
        board,
        counted_bags.as_slice(),
        previews,
        init_hold,
        use_hold,
        generate_culled,
        two_line,
    );
    assert(flattens(combinatoric_queue@, counted_bags@));
    r
}

} // verus!
