use std::collections::VecDeque;

use gigapan::board::Board;
use gigapan::board_map::BoardMap;
use gigapan::board_set::BoardSet;
use gigapan::boardgraph::{no_edges, Gigapan};
use gigapan::calculate::{
    count_possible_queues, max_limited_see_queues, test_set_queue_with_hold,
    test_set_queue_without_hold,
};
use gigapan::chance::{limited_see_chance, search_all, solve_visible, tally, ChanceError, Outcome};
use gigapan::combinatoric::CombinatoricQueue;
use gigapan::culling::get_culled_boards;
use gigapan::queue::QueueState;
use gigapan::shape::Shape;

const FULL: u64 = 0xFF_FFFF_FFFF;
const ONE_LEFT: u64 = FULL & !0xF;
const TWO_LEFT: u64 = FULL & !0xFF;
const DEAD_END: u64 = FULL & !0xF0;

fn small_graph() -> Gigapan {
    let mut graph: Gigapan = BoardMap::new();
    let mut edges = no_edges();
    edges[Shape::I as usize].push(Board(FULL));
    graph.insert(Board(ONE_LEFT), edges);
    let mut edges = no_edges();
    edges[Shape::J as usize].push(Board(DEAD_END));
    edges[Shape::J as usize].push(Board(ONE_LEFT));
    graph.insert(Board(TWO_LEFT), edges);
    graph.insert(Board(DEAD_END), no_edges());
    graph
}

#[test]
fn board_counts_cells() {
    assert_eq!(Board::empty().count(), 0);
    assert_eq!(Board::full().count(), 40);
    assert_eq!(Board::half().count(), 20);
    assert_eq!(Board(ONE_LEFT).count(), 36);
    assert_eq!(Board(u64::MAX).count(), 64);
}

#[test]
fn board_map_keeps_insertion_order() {
    let graph = small_graph();
    assert_eq!(graph.len(), 3);
    assert_eq!(graph.key_at(0), Board(ONE_LEFT));
    assert_eq!(graph.key_at(1), Board(TWO_LEFT));
    assert_eq!(graph.position(Board(DEAD_END)), Some(2));
    assert_eq!(graph.position(Board(FULL)), None);
    assert!(graph.contains(Board(TWO_LEFT)));
    assert_eq!(graph.get(Board(ONE_LEFT)).unwrap()[0], vec![Board(FULL)]);
    assert!(graph.get(Board(0)).is_none());
}

#[test]
fn board_set_holds_what_was_inserted() {
    let mut set = BoardSet::new();
    assert_eq!(set.len(), 0);
    assert!(!set.contains(Board(7)));
    assert!(set.insert(Board(7)));
    assert!(!set.insert(Board(7)));
    assert!(set.insert(Board(8)));
    assert!(set.contains(Board(7)));
    assert!(!set.contains(Board(9)));
    assert_eq!(set.len(), 2);
}

#[test]
fn set_queue_without_hold_follows_edges() {
    let graph = small_graph();
    let mut queue: VecDeque<Shape> = VecDeque::from(vec![Shape::J, Shape::I]);
    assert!(test_set_queue_without_hold(&graph, None, Board(TWO_LEFT), &mut queue, false));
    assert_eq!(queue, VecDeque::from(vec![Shape::J, Shape::I]));
    let mut queue: VecDeque<Shape> = VecDeque::from(vec![Shape::I, Shape::J]);
    assert!(!test_set_queue_without_hold(&graph, None, Board(TWO_LEFT), &mut queue, false));
    let mut queue: VecDeque<Shape> = VecDeque::new();
    assert!(test_set_queue_without_hold(&graph, None, Board(FULL), &mut queue, false));
    assert!(!test_set_queue_without_hold(&graph, None, Board(ONE_LEFT), &mut queue, false));
    assert!(!test_set_queue_without_hold(&graph, None, Board(0xFFFFF), &mut queue, false));
    assert!(test_set_queue_without_hold(&graph, None, Board(0xFFFFF), &mut queue, true));
}

#[test]
fn set_queue_with_hold_may_swap() {
    let graph = small_graph();
    let mut queue: VecDeque<Shape> = VecDeque::from(vec![Shape::I, Shape::O]);
    assert!(test_set_queue_with_hold(&graph, None, Board(TWO_LEFT), &mut queue, Shape::J, false));
    assert_eq!(queue, VecDeque::from(vec![Shape::I, Shape::O]));
    let mut queue: VecDeque<Shape> = VecDeque::from(vec![Shape::O, Shape::I]);
    assert!(!test_set_queue_with_hold(&graph, None, Board(TWO_LEFT), &mut queue, Shape::T, false));
}

#[test]
fn set_queue_respects_the_culled_set() {
    let graph = small_graph();
    let mut culled = BoardSet::new();
    culled.insert(Board(FULL));
    let mut queue: VecDeque<Shape> = VecDeque::from(vec![Shape::J, Shape::I]);
    assert!(!test_set_queue_without_hold(&graph, Some(&culled), Board(TWO_LEFT), &mut queue, false));
    culled.insert(Board(ONE_LEFT));
    assert!(test_set_queue_without_hold(&graph, Some(&culled), Board(TWO_LEFT), &mut queue, false));
}

#[test]
fn possible_queues_are_counted() {
    let queue = CombinatoricQueue::from_str("[IJSZ]!").unwrap();
    let bags = queue.get_counted_bags();
    let state = QueueState(bags[0].1.full);
    assert_eq!(count_possible_queues(&bags, state, 0), Some(24));
    assert_eq!(count_possible_queues(&bags, state, 4), Some(1));
    let later = state.take(&bags[0].1, Shape::I).unwrap();
    assert_eq!(count_possible_queues(&bags, later, 1), Some(6));
    let twice = CombinatoricQueue::from_str("[SSZZ]!").unwrap().get_counted_bags();
    assert_eq!(count_possible_queues(&twice, QueueState(twice[0].1.full), 0), Some(6));
}

#[test]
fn culled_boards_lie_on_a_way_to_the_end() {
    let graph = small_graph();
    let bags = CombinatoricQueue::from_str("[IJO]!").unwrap().get_counted_bags();
    let culled = get_culled_boards(&graph, Board(TWO_LEFT), &bags, true).unwrap();
    assert!(culled.contains(Board(TWO_LEFT)));
    assert!(culled.contains(Board(ONE_LEFT)));
    assert!(culled.contains(Board(FULL)));
    assert!(!culled.contains(Board(DEAD_END)));
    assert_eq!(culled.len(), 3);
    let again = get_culled_boards(&graph, Board(TWO_LEFT), &bags, true).unwrap();
    assert_eq!(again.len(), culled.len());
    for b in [TWO_LEFT, ONE_LEFT, FULL, DEAD_END] {
        assert_eq!(again.contains(Board(b)), culled.contains(Board(b)));
    }
}

#[test]
fn culling_fails_without_a_single_end() {
    let graph = small_graph();
    let bags = CombinatoricQueue::from_str("[OT]!").unwrap().get_counted_bags();
    assert!(get_culled_boards(&graph, Board(ONE_LEFT), &bags, true).is_none());
    let bags = CombinatoricQueue::from_str("[IJ]!").unwrap().get_counted_bags();
    assert!(get_culled_boards(&graph, Board(TWO_LEFT), &bags, true).is_none());
}

#[test]
fn limited_see_counts_cleared_orders() {
    let graph = small_graph();
    let bags = CombinatoricQueue::from_str("[IJO]!").unwrap().get_counted_bags();
    let state = QueueState(bags[0].1.full).take(&bags[0].1, Shape::J).unwrap();
    let mut queue: VecDeque<Shape> = VecDeque::from(vec![Shape::J]);
    let result = max_limited_see_queues(
        &graph,
        None,
        Board(TWO_LEFT),
        None,
        true,
        false,
        &bags,
        state,
        &mut queue,
        1,
    );
    assert_eq!(result, (2, Some(2)));
    assert_eq!(queue, VecDeque::from(vec![Shape::J]));
    let state = QueueState(bags[0].1.full).take(&bags[0].1, Shape::O).unwrap();
    let mut queue: VecDeque<Shape> = VecDeque::from(vec![Shape::O]);
    let result = max_limited_see_queues(
        &graph,
        None,
        Board(TWO_LEFT),
        None,
        false,
        false,
        &bags,
        state,
        &mut queue,
        1,
    );
    assert_eq!(result, (0, None));
}

#[test]
fn chance_on_one_piece_left() {
    let graph = small_graph();
    let queue = CombinatoricQueue::from_str("[IO]!").unwrap();
    let report =
        limited_see_chance(&graph, Board(ONE_LEFT), &queue, 0, true, true, true, false).unwrap();
    assert_eq!(report.outcomes.len(), 2);
    assert_eq!(report.passing, 2);
    assert!(report.fails.is_empty());
    assert_eq!(report.outcomes[0].queue, VecDeque::from(vec![Shape::I, Shape::O]));
    assert_eq!(report.outcomes[0].covered, 1);
    assert_eq!(report.outcomes[0].maximum, Some(1));
    assert_eq!(queue.queue_count(), 2);

    let report =
        limited_see_chance(&graph, Board(ONE_LEFT), &queue, 0, false, true, false, false).unwrap();
    assert_eq!(report.outcomes.len(), 2);
    assert_eq!(report.passing, 2);

    let report =
        limited_see_chance(&graph, Board(ONE_LEFT), &queue, 0, false, false, false, false).unwrap();
    assert_eq!(report.passing, 1);
    assert!(report.fails.is_empty());
    assert_eq!(report.outcomes[1].queue, VecDeque::from(vec![Shape::O]));
    assert_eq!(report.outcomes[1].covered, 0);
    assert_eq!(report.outcomes[1].maximum, None);
}

#[test]
fn chance_reports_what_is_wrong() {
    let graph = small_graph();
    let queue = CombinatoricQueue::from_str("[IO]!").unwrap();
    let bad = limited_see_chance(&graph, Board(TWO_LEFT), &queue, 0, true, true, false, false);
    assert!(matches!(bad, Err(ChanceError::BadQueueLen)));
    let empty = CombinatoricQueue::new();
    let bad = limited_see_chance(&graph, Board(FULL), &empty, 0, true, true, false, false);
    assert!(matches!(bad, Err(ChanceError::BadQueueLen)));
    let bad = limited_see_chance(&graph, Board(ONE_LEFT), &queue, 1, true, true, false, false);
    assert!(matches!(bad, Err(ChanceError::TooManyPreviews)));
    let none = CombinatoricQueue::from_str("[OT]!").unwrap();
    let bad = limited_see_chance(&graph, Board(ONE_LEFT), &none, 0, true, true, true, false);
    assert!(matches!(bad, Err(ChanceError::NoSingleEnd)));
    let report =
        limited_see_chance(&graph, Board(ONE_LEFT), &none, 0, true, true, false, false).unwrap();
    assert_eq!(report.passing, 0);
    assert_eq!(report.fails, vec![0, 1]);
}

#[test]
fn covered_never_exceeds_the_count() {
    let graph = small_graph();
    for text in ["[IJO]!", "[IJ]!O", "J[IO]!", "[IJOT]p3", "JIO", "[JJI]!"] {
        let queue = CombinatoricQueue::from_str(text).unwrap();
        for previews in 0..2 {
            for flags in 0..8 {
                let report = limited_see_chance(
                    &graph,
                    Board(TWO_LEFT),
                    &queue,
                    previews,
                    flags & 1 != 0,
                    flags & 2 != 0,
                    flags & 4 != 0,
                    false,
                );
                let Ok(report) = report else { continue };
                let bags = queue.get_counted_bags();
                let mut total = 0;
                for outcome in &report.outcomes {
                    let mut state = QueueState(bags[0].1.full);
                    for (bag, shape) in bags.iter().zip(outcome.queue.iter()) {
                        let refilled = if bag.0 == 0 { state.next(&bag.1) } else { state };
                        state = refilled.take(&bag.1, *shape).unwrap();
                    }
                    let count = count_possible_queues(&bags, state, outcome.queue.len()).unwrap();
                    assert!(outcome.covered <= count);
                    if let Some(maximum) = outcome.maximum {
                        assert_eq!(maximum, count);
                    }
                    total += outcome.covered;
                }
                assert_eq!(report.passing, total);
            }
        }
    }
}

#[test]
fn chance_with_two_pieces_left() {
    let graph = small_graph();
    let queue = CombinatoricQueue::from_str("[IJO]!").unwrap();
    let report =
        limited_see_chance(&graph, Board(TWO_LEFT), &queue, 0, true, true, true, false).unwrap();
    let covered: Vec<usize> = report.outcomes.iter().map(|o| o.covered).collect();
    let orders: Vec<Vec<Shape>> =
        report.outcomes.iter().map(|o| o.queue.iter().copied().collect()).collect();
    assert_eq!(
        orders,
        vec![
            vec![Shape::I, Shape::J],
            vec![Shape::I, Shape::O],
            vec![Shape::J, Shape::I],
            vec![Shape::J, Shape::O],
            vec![Shape::O, Shape::I],
            vec![Shape::O, Shape::J],
        ]
    );
    assert_eq!(covered, vec![1, 0, 1, 1, 0, 1]);
    assert_eq!(report.passing, 4);
    assert_eq!(report.outcomes[1].maximum, None);
    assert_eq!(report.outcomes[0].maximum, Some(1));
    assert!(report.fails.is_empty());
    assert_eq!(queue.queue_count(), 6);
}

#[test]
fn search_needs_an_order_the_bags_can_give() {
    let graph = small_graph();
    let bags = CombinatoricQueue::from_str("[IJO]!").unwrap().get_counted_bags();
    let board = Board(TWO_LEFT);
    let order = VecDeque::from(vec![Shape::J, Shape::I]);
    assert_eq!(
        solve_visible(&graph, None, board, &bags, &order, true, true, false),
        Some((1, Some(1)))
    );
    assert_eq!(
        solve_visible(&graph, None, board, &bags, &order, false, false, false),
        Some((1, Some(1)))
    );
    let twice = VecDeque::from(vec![Shape::J, Shape::J]);
    assert_eq!(solve_visible(&graph, None, board, &bags, &twice, true, true, false), None);
    let long = VecDeque::from(vec![Shape::J, Shape::I, Shape::O, Shape::T]);
    assert_eq!(solve_visible(&graph, None, board, &bags, &long, true, true, false), None);
    let single = VecDeque::from(vec![Shape::J]);
    assert_eq!(solve_visible(&graph, None, board, &bags, &single, true, true, false), None);
    assert_eq!(solve_visible(&graph, None, board, &bags, &VecDeque::new(), false, true, false), None);
    let all = search_all(&graph, None, board, &bags, 3, false, true, false);
    assert!(matches!(all, Err(ChanceError::TooManyPreviews)));
    let all = search_all(&graph, None, board, &bags, 2, false, true, false).unwrap();
    assert_eq!(all.len(), 6);
}

#[test]
fn tally_sums_and_lists_short_falls() {
    let outcome = |covered: usize, maximum: Option<usize>| Outcome {
        queue: VecDeque::from(vec![Shape::T]),
        covered,
        maximum,
    };
    let outcomes = vec![
        outcome(3, Some(3)),
        outcome(1, Some(2)),
        outcome(0, None),
        outcome(2, None),
        outcome(0, Some(0)),
    ];
    assert_eq!(tally(&outcomes), Some((6, vec![1, 3])));
    assert_eq!(tally(&Vec::new()), Some((0, vec![])));
    let huge = vec![outcome(usize::MAX, None), outcome(1, None)];
    assert_eq!(tally(&huge), None);
}
