use gigapan::combinatoric::CombinatoricQueue;
use gigapan::parse::{parse_tokens, tokenize, InvalidTokenError, Token};
use gigapan::permute::get_queue_permutations;
use gigapan::queue::{Bag, QueueState};
use gigapan::shape::Shape;

#[test]
fn queuecombo() {
    let input_str = "[IJSZ]!IJ*p3";
    let queue = CombinatoricQueue::from_str(input_str).unwrap();

    let permus = get_queue_permutations(&queue.get_counted_bags(), None, None);
    assert_eq!(permus.len(), queue.queue_count());
    assert_eq!(permus.len(), 5040);

    let input_str = "IZJSSJLIOZT";
    let queue = CombinatoricQueue::from_str(input_str).unwrap();
    assert_eq!(queue.queue_count(), 1);
    assert_eq!(queue.get_counted_bags().len(), 11);

    let input_str = "[SSZZ]!";
    let queue = CombinatoricQueue::from_str(input_str).unwrap();

    let permus = get_queue_permutations(&queue.get_counted_bags(), None, None);
    assert_eq!(permus.len(), queue.queue_count());
    assert_eq!(permus.len(), 6);
}

#[test]
fn queuegen_string() {
    let input_str = "[^]p3**p7*p1[^JLT]p2JLT[SZ]!";
    let queue = CombinatoricQueue::from_str(input_str).unwrap();
    assert_eq!(queue.to_string(), "*p3,*,*p7,*,[IOSZ]p2,JLT,[SZ]!");
}

#[test]
fn bag_new_builds_masks() {
    let bag = Bag::new(&[Shape::I, Shape::J, Shape::S, Shape::Z], 4);
    assert_eq!(bag.count, 4);
    assert_eq!(bag.full, 0b1111);
    assert_eq!(bag.masks, [1, 2, 0, 0, 4, 0, 8]);

    let twice = Bag::new(&[Shape::S, Shape::S, Shape::Z, Shape::Z], 4);
    assert_eq!(twice.full, 0b1111);
    assert_eq!(twice.masks, [0, 0, 0, 0, 0b0011, 0, 0b1100]);

    let empty = Bag::new(&[], 0);
    assert_eq!(empty.full, 0);
    assert_eq!(empty.masks, [0; 7]);
}

#[test]
fn bag_new_takes_thirteen_slots() {
    let shapes = [Shape::I; 13];
    let bag = Bag::new(&shapes, 13);
    assert_eq!(bag.full, 0x1FFF);
    assert_eq!(bag.masks[0], 0x1FFF);
}

#[test]
fn queue_state_take_clears_lowest_slot() {
    let bag = Bag::new(&[Shape::I, Shape::J, Shape::S, Shape::Z], 4);
    let state = QueueState(bag.full);
    assert_eq!(state.take(&bag, Shape::J), Some(QueueState(0b1101)));
    assert_eq!(state.take(&bag, Shape::L), None);

    let twice = Bag::new(&[Shape::S, Shape::S, Shape::Z, Shape::Z], 4);
    let first = QueueState(twice.full).take(&twice, Shape::S).unwrap();
    assert_eq!(first, QueueState(0b1110));
    let second = first.take(&twice, Shape::S).unwrap();
    assert_eq!(second, QueueState(0b1100));
    assert_eq!(second.take(&twice, Shape::S), None);
}

#[test]
fn queue_state_hold_reads_high_bits() {
    assert_eq!(QueueState(0).hold(), Some(Shape::I));
    assert_eq!(QueueState(1 << 13).hold(), Some(Shape::J));
    assert_eq!(QueueState(2 << 13).hold(), Some(Shape::L));
    assert_eq!(QueueState(3 << 13).hold(), Some(Shape::O));
    assert_eq!(QueueState(4 << 13).hold(), Some(Shape::S));
    assert_eq!(QueueState(5 << 13).hold(), Some(Shape::T));
    assert_eq!(QueueState(6 << 13 | 0x1FFF).hold(), Some(Shape::Z));
    assert_eq!(QueueState(0xE000).hold(), None);
}

#[test]
fn queue_state_swap_and_next() {
    let bag = Bag::new(&[Shape::I, Shape::J, Shape::S, Shape::Z], 4);
    let state = QueueState(bag.full);
    assert_eq!(state.swap(&bag, Shape::S), Some(QueueState(0x800B)));
    assert_eq!(state.swap(&bag, Shape::T), None);
    assert_eq!(QueueState(0x8000).next(&bag), QueueState(0x800F));
    assert_eq!(QueueState(0x800B).force_swap(Shape::Z), QueueState(0xC00B));
}

#[test]
fn bag_init_hold_lists_each_shape_once() {
    let bag = Bag::new(&[Shape::I, Shape::J, Shape::S, Shape::Z], 4);
    assert_eq!(
        bag.init_hold(),
        vec![QueueState(0x000E), QueueState(0x200D), QueueState(0x800B), QueueState(0xC007)]
    );
    let twice = Bag::new(&[Shape::S, Shape::S], 2);
    assert_eq!(twice.init_hold(), vec![QueueState(0x8002)]);
}

#[test]
fn bag_take_swaps_when_shape_is_held() {
    let bag = Bag::new(&[Shape::I, Shape::J, Shape::S, Shape::Z], 4);
    let states = [QueueState(0x200F)];
    assert_eq!(
        bag.take(&states, Shape::J, false, true),
        vec![QueueState(0x000E), QueueState(0x200D), QueueState(0x800B), QueueState(0xC007)]
    );
    assert_eq!(bag.take(&states, Shape::I, false, true), vec![QueueState(0x200E)]);
    assert_eq!(bag.take(&states, Shape::I, false, false), vec![]);
    assert_eq!(bag.take(&states, Shape::L, false, true), vec![]);
}

#[test]
fn bag_take_gives_each_state_once() {
    let bag = Bag::new(&[Shape::S, Shape::S, Shape::Z], 3);
    let states = [QueueState(0xE007), QueueState(0xE007), QueueState(0xE006)];
    assert_eq!(
        bag.take(&states, Shape::Z, false, true),
        vec![QueueState(0xE003), QueueState(0xE002)]
    );
}

#[test]
fn exhausted_window_refuses_until_refilled() {
    let bag = Bag::new(&[Shape::I, Shape::J, Shape::S, Shape::Z], 4);
    let exhausted = QueueState(0x2000);
    assert_eq!(exhausted.take(&bag, Shape::I), None);
    assert_eq!(exhausted.swap(&bag, Shape::I), None);
    let refilled = exhausted.next(&bag);
    assert_eq!(refilled.0 & 0x1FFF, bag.full);
    assert_eq!(refilled.hold(), Some(Shape::J));
    assert_eq!(refilled.take(&bag, Shape::I), Some(QueueState(0x200E)));
    assert_eq!(bag.take(&[exhausted], Shape::I, false, true), vec![]);
    assert_eq!(bag.take(&[exhausted], Shape::I, true, true), vec![QueueState(0x200E)]);
    assert_eq!(bag.take(&[exhausted], Shape::L, true, true), vec![]);
}

#[test]
fn counted_bags_number_the_draws() {
    let queue = CombinatoricQueue::from_str("IJ[SZ]!*p3").unwrap();
    let bags = queue.get_counted_bags();
    let slots: Vec<u8> = bags.iter().map(|b| b.0).collect();
    assert_eq!(slots, vec![0, 0, 0, 1, 0, 1, 2]);
    assert_eq!(bags[0].1, Bag::new(&[Shape::I], 1));
    assert_eq!(bags[1].1, Bag::new(&[Shape::J], 1));
    assert_eq!(bags[2].1, Bag::new(&[Shape::S, Shape::Z], 2));
    assert_eq!(bags[3].1, bags[2].1);
    assert_eq!(bags[6].1.full, 0x7F);
    assert_eq!(bags[6].1.count, 3);
}

#[test]
fn queue_count_multiplies_bags() {
    assert_eq!(CombinatoricQueue::from_str("*p7").unwrap().queue_count(), 5040);
    assert_eq!(CombinatoricQueue::from_str("*p2").unwrap().queue_count(), 42);
    assert_eq!(CombinatoricQueue::from_str("[IJ]!*p2").unwrap().queue_count(), 84);
    assert_eq!(CombinatoricQueue::from_str("[SSZZ]!").unwrap().checked_queue_count(), Some(6));
    assert_eq!(CombinatoricQueue::from_str("[SSZZ]p2").unwrap().checked_queue_count(), Some(3));
    assert_eq!(CombinatoricQueue::from_str("[SSZ]p1").unwrap().checked_queue_count(), None);
    assert_eq!(CombinatoricQueue::new().queue_count(), 1);
}

#[test]
fn permutations_follow_canonical_order() {
    let queue = CombinatoricQueue::from_str("[SZ]!I").unwrap();
    let permus = get_queue_permutations(&queue.get_counted_bags(), None, None);
    let lists: Vec<Vec<Shape>> = permus.iter().map(|p| p.iter().copied().collect()).collect();
    assert_eq!(
        lists,
        vec![vec![Shape::S, Shape::Z, Shape::I], vec![Shape::Z, Shape::S, Shape::I]]
    );
    let short = get_queue_permutations(&queue.get_counted_bags(), None, Some(1));
    assert_eq!(short.len(), 2);
    assert_eq!(short[0].len(), 1);
    let none = get_queue_permutations(&queue.get_counted_bags(), None, Some(0));
    assert_eq!(none.len(), 1);
    assert!(none[0].is_empty());
}

#[test]
fn permutations_start_from_a_given_state() {
    let queue = CombinatoricQueue::from_str("[IJL]!").unwrap();
    let bags = queue.get_counted_bags();
    let state = QueueState(bags[0].1.full).take(&bags[0].1, Shape::J).unwrap();
    let permus = get_queue_permutations(&bags, Some((1, state)), None);
    let lists: Vec<Vec<Shape>> = permus.iter().map(|p| p.iter().copied().collect()).collect();
    assert_eq!(lists, vec![vec![Shape::I, Shape::L], vec![Shape::L, Shape::I]]);
}

#[test]
fn parser_rejects_bad_tokens() {
    assert!(matches!(CombinatoricQueue::from_str("I]"), Err(InvalidTokenError)));
    assert!(matches!(CombinatoricQueue::from_str("[I[J]]"), Err(InvalidTokenError)));
    assert!(matches!(CombinatoricQueue::from_str("^IJ"), Err(InvalidTokenError)));
    assert!(matches!(CombinatoricQueue::from_str("[IJ]p0"), Err(InvalidTokenError)));
    assert!(matches!(CombinatoricQueue::from_str("[IJ]p"), Err(InvalidTokenError)));
    assert!(matches!(CombinatoricQueue::from_str("[IJ]p256"), Err(InvalidTokenError)));
    assert!(matches!(CombinatoricQueue::from_str("[IJ]p3"), Err(InvalidTokenError)));
    assert!(matches!(CombinatoricQueue::from_str("[IJ]p1\u{0663}"), Err(InvalidTokenError)));
    assert!(matches!(CombinatoricQueue::from_str("[IJ"), Err(InvalidTokenError)));
    assert!(matches!(CombinatoricQueue::from_str("[]"), Err(InvalidTokenError)));
    assert!(matches!(CombinatoricQueue::from_str("[*]"), Err(InvalidTokenError)));
}

#[test]
fn parser_passes_over_other_characters() {
    let queue = CombinatoricQueue::from_str("*p3,*, [IOSZ]p02 , J L T,[SZ]!x9").unwrap();
    assert_eq!(queue.to_string(), "*p3,*,[IOSZ]p2,J,L,T,[SZ]!");
    assert_eq!(CombinatoricQueue::from_str("").unwrap().to_string(), "");
    assert_eq!(CombinatoricQueue::from_str("IJLOSTZ").unwrap().to_string(), "*");
    assert_eq!(
        CombinatoricQueue::from_str("[IJLOSTZIJLOST]p12").unwrap().to_string(),
        "[IJLOSTZIJLOST]p12"
    );
}

#[test]
fn tokens_expand_the_star() {
    let tokens = tokenize("*p1");
    assert_eq!(tokens.len(), 11);
    assert_eq!(tokens[0], Token::Open);
    assert_eq!(tokens[1], Token::Piece(Shape::I));
    assert_eq!(tokens[7], Token::Piece(Shape::Z));
    assert_eq!(tokens[8], Token::Close);
    assert_eq!(tokens[9], Token::Draws);
    assert_eq!(tokens[10], Token::Digit(1));
    assert_eq!(tokenize("^!x\u{00B2}"), vec![Token::Invert, Token::All, Token::Other, Token::Numeral]);
    let queue = parse_tokens(&[Token::Open, Token::Piece(Shape::T), Token::Close]).unwrap();
    assert_eq!(queue.to_string(), "[T]!");
}

#[test]
fn add_bag_inverts_in_canonical_order() {
    let mut queue = CombinatoricQueue::new();
    queue.add_bag(vec![Shape::T, Shape::J, Shape::L], Some(2), true);
    queue.add_shapes(vec![Shape::O, Shape::O]);
    queue.add_bag(vec![Shape::Z], None, false);
    assert_eq!(queue.to_string(), "[IOSZ]p2,OO,[Z]!");
    assert_eq!(queue.queue_count(), 12);
}
