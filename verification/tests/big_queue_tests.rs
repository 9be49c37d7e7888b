use gigapan::big_queue::Queue;
use gigapan::shape::Shape;

#[test]
fn queue_pushes_pack_three_bits() {
    let queue = Queue::empty();
    assert!(queue.is_empty());
    assert_eq!(queue.len(), 0);
    let queue = queue.push_first(Shape::I);
    assert_eq!(queue, Queue(1));
    let queue = queue.push_first(Shape::J);
    assert_eq!(queue, Queue(0o12));
    assert!(!queue.is_empty());
    assert_eq!(queue.len(), 2);
    let queue = queue.push_last(Shape::Z);
    assert_eq!(queue, Queue(0o712));
    let queue = queue.push_second(Shape::O);
    assert_eq!(queue, Queue(0o7142));
    assert_eq!(queue.len(), 4);
    assert_eq!(queue.to_string(), "JOIZ");
    assert_eq!(queue.display(), "[JOIZ]");
}

#[test]
fn queue_next_reads_from_the_front() {
    let mut queue = Queue(0o321);
    assert_eq!(queue.next(), Some(Shape::I));
    assert_eq!(queue.next(), Some(Shape::J));
    assert_eq!(queue.next(), Some(Shape::L));
    assert_eq!(queue.next(), None);
    assert_eq!(queue, Queue(0));
}

#[test]
fn queue_natural_order_key_reverses_groups() {
    assert_eq!(Queue(0o321).natural_order_key(), 0o1230000000);
    assert_eq!(Queue(0o7654321123).natural_order_key(), 0o3211234567);
    assert_eq!(Queue(0).natural_order_key(), 0);
    assert_eq!(Queue(0o321).reverse(), Queue(0o123));
    assert_eq!(Queue(0).reverse(), Queue(0));
    assert_eq!(Queue(0o7654321123).reverse(), Queue(0o3211234567));
}

#[test]
fn queue_from_shapes_stops_at_ten() {
    let shapes = [Shape::S; 12];
    let queue = Queue::from_shapes(&shapes);
    assert_eq!(queue, Queue(0o5555555555));
    assert_eq!(queue.len(), 10);
    assert_eq!(Queue::from_shapes(&[Shape::T, Shape::O]), Queue(0o46));
}

#[test]
fn queue_len_counts_groups() {
    assert_eq!(Queue(1).len(), 1);
    assert_eq!(Queue(0o7).len(), 1);
    assert_eq!(Queue(0o10).len(), 2);
    assert_eq!(Queue(u64::MAX).len(), 22);
}

#[test]
fn queue_unhold_lists_playable_orders() {
    assert_eq!(Queue::empty().unhold(), vec![Queue(0)]);
    assert_eq!(Queue(0o4).unhold(), vec![Queue(0o4)]);
    assert_eq!(Queue(0o21).unhold(), vec![Queue(0o12), Queue(0o21)]);
    assert_eq!(
        Queue(0o321).unhold(),
        vec![Queue(0o213), Queue(0o231), Queue(0o312), Queue(0o321)]
    );
    assert_eq!(Queue(0o11).unhold(), vec![Queue(0o11)]);
    assert_eq!(Queue(0o7654321).unhold().len(), 64);
}

#[test]
fn queue_unhold_many_sorts_by_natural_key() {
    assert_eq!(Queue::unhold_many(&[]), vec![]);
    assert_eq!(Queue::unhold_many(&[Queue(0)]), vec![Queue(0)]);
    assert_eq!(Queue::unhold_many(&[Queue(0o21)]), vec![Queue(0o21), Queue(0o12)]);
    assert_eq!(
        Queue::unhold_many(&[Queue(0o21), Queue(0o12), Queue(0o21)]),
        vec![Queue(0o21), Queue(0o12)]
    );
    assert_eq!(
        Queue::unhold_many(&[Queue(0o321)]),
        vec![Queue(0o321), Queue(0o231), Queue(0o312), Queue(0o213)]
    );
    assert_eq!(
        Queue::unhold_many(&[Queue(0o3), Queue(0o21)]),
        vec![Queue(0o21), Queue(0o12), Queue(0o3)]
    );
    let mut single: Vec<Queue> = Queue(0o7654321).unhold();
    single.sort_by_key(|q| q.natural_order_key());
    assert_eq!(Queue::unhold_many(&[Queue(0o7654321)]), single);
    assert_eq!(Queue::unhold_many(&[Queue(0o77777777777)]), vec![]);
}

#[test]
fn queue_pieces_read_in_order() {
    assert_eq!(Queue(0o7321).pieces(), vec![Shape::I, Shape::J, Shape::L, Shape::Z]);
    assert_eq!(Queue(0o7021).pieces(), vec![Shape::I, Shape::J]);
    assert!(Queue(0).pieces().is_empty());
    let mut queue = Queue(0o21);
    queue.extend(&[Shape::L, Shape::Z]);
    assert_eq!(queue, Queue(0o7321));
}
