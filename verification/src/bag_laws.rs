//! What holds of every bag and every state of the bag automaton.

use vstd::prelude::*;
use crate::shape::{Shape, lemma_shape_index};
use crate::queue::{
    after, low_slots, push_after, push_new, push_swaps, shape_mask, slot_bit, Bag, QueueState,
};

verus! {

/// How many of the sixteen bits of `x` are set.
pub open spec fn count16(x: u16) -> nat {
    (((x >> 0) & 1) + ((x >> 1) & 1) + ((x >> 2) & 1) + ((x >> 3) & 1) + ((x >> 4) & 1) + ((x >> 5)
        & 1) + ((x >> 6) & 1) + ((x >> 7) & 1) + ((x >> 8) & 1) + ((x >> 9) & 1) + ((x >> 10) & 1)
        + ((x >> 11) & 1) + ((x >> 12) & 1) + ((x >> 13) & 1) + ((x >> 14) & 1) + ((x >> 15)
        & 1)) as nat
}

/// The lowest set bit of `x`; 0 for 0.
pub open spec fn lowest_bit(x: u16) -> u16 {
    x & !((x - 1) as u16)
}

/// How many slots of `shape` are left in `q`.
pub open spec fn remaining(q: QueueState, bag: &Bag, shape: Shape) -> nat {
    count16(q.shape_field(bag, shape))
}

/// The masks of a bag lie inside its window, and those of two shapes do not
/// meet.
pub proof fn lemma_shape_masks(shapes: Seq<Shape>, a: Shape, b: Shape)
    requires
        shapes.len() <= 13,
    ensures
        shape_mask(shapes, a) & !low_slots(shapes.len()) == 0,
        a != b ==> shape_mask(shapes, a) & shape_mask(shapes, b) == 0,
        shape_mask(shapes, a) != 0 <==> shapes.contains(a),
    decreases shapes.len(),
{
    if shapes.len() == 0 {
        assert(0u16 & !(((1u16 << 0u16) - 1) as u16) == 0) by (bit_vector);
        assert(0u16 & 0u16 == 0) by (bit_vector);
    } else {
        let rest = shapes.drop_last();
        lemma_shape_masks(rest, a, b);
        lemma_shape_masks(rest, b, a);
        let n = (shapes.len() - 1) as u16;
        let ma = shape_mask(rest, a);
        let mb = shape_mask(rest, b);
        let bit = slot_bit(n as nat);
        assert(bit == 1u16 << n);
        assert(low_slots(rest.len()) == ((1u16 << n) - 1) as u16);
        assert(low_slots(shapes.len()) == ((1u16 << ((n + 1) as u16)) - 1) as u16);
        assert(ma & !(((1u16 << n) - 1) as u16) == 0 && n < 13 ==> {
            &&& (ma | (1u16 << n)) & !(((1u16 << ((n + 1) as u16)) - 1) as u16) == 0
            &&& (ma | 0u16) & !(((1u16 << ((n + 1) as u16)) - 1) as u16) == 0
            &&& (ma | (1u16 << n)) != 0
            &&& (ma | 0u16) == ma
        }) by (bit_vector);
        assert(ma & !(((1u16 << n) - 1) as u16) == 0 && mb & !(((1u16 << n) - 1) as u16) == 0 && n
            < 13 && ma & mb == 0 ==> {
            &&& (ma | (1u16 << n)) & (mb | 0u16) == 0
            &&& (ma | 0u16) & (mb | (1u16 << n)) == 0
            &&& (ma | 0u16) & (mb | 0u16) == 0
        }) by (bit_vector);
        if shapes.last() == a {
            assert(shapes[shapes.len() - 1] == a);
        } else {
            if shapes.contains(a) {
                let i = choose|i: int| 0 <= i < shapes.len() && shapes[i] == a;
                assert(rest[i] == a);
            }
            if rest.contains(a) {
                let i = choose|i: int| 0 <= i < rest.len() && rest[i] == a;
                assert(shapes[i] == a);
            }
        }
    }
}

/// Drawing a shape clears one slot of it, the lowest that is left, and no
/// other bit; it fails exactly where no slot of the shape is left.
pub proof fn lemma_take_clears_one_slot(q: QueueState, bag: &Bag, shape: Shape)
    ensures
        q.spec_take(bag, shape) is None <==> q.shape_field(bag, shape) == 0,
        q.spec_take(bag, shape) matches Some(t) ==> {
            let bit = lowest_bit(q.shape_field(bag, shape));
            &&& bit != 0
            &&& bit & q.shape_field(bag, shape) == bit
            &&& count16(bit) == 1
            &&& t.0 == q.0 & !bit
            &&& t.shape_field(bag, shape) == q.shape_field(bag, shape) & !bit
            &&& remaining(t, bag, shape) + 1 == remaining(q, bag, shape)
        },
{
    let x = q.0;
    let m = bag.masks@[shape.spec_index() as int];
    let f = x & m;
    if f != 0 {
        assert(f != 0 && f == x & m ==> {
            let bit = f & !((f - 1) as u16);
            &&& bit != 0
            &&& bit & f == bit
            &&& count16(bit) == 1
            &&& (x ^ f ^ (f & ((f - 1) as u16))) == x & !bit
            &&& (x & !bit) & m == f & !bit
            &&& count16(f & !bit) + 1 == count16(f)
        }) by (bit_vector);
    }
}

/// Drawing a shape leaves the slots of every other shape as they are, in a
/// bag whose masks do not meet.
pub proof fn lemma_take_keeps_others(
    q: QueueState,
    bag: &Bag,
    shapes: Seq<Shape>,
    count: u8,
    shape: Shape,
    other: Shape,
)
    requires
        bag.models(shapes, count),
        shapes.len() <= 13,
        other != shape,
    ensures
        q.spec_take(bag, shape) matches Some(t) ==> t.shape_field(bag, other) == q.shape_field(
            bag,
            other,
        ) && t.hold_code() == q.hold_code(),
{
    lemma_shape_masks(shapes, shape, other);
    lemma_shape_index(shape);
    lemma_shape_index(other);
    let x = q.0;
    let m = bag.masks@[shape.spec_index() as int];
    let mo = bag.masks@[other.spec_index() as int];
    let full = low_slots(shapes.len());
    assert(m == shape_mask(shapes, shape));
    assert(mo == shape_mask(shapes, other));
    let f = x & m;
    let n = shapes.len() as u16;
    assert(full == ((1u16 << n) - 1) as u16);
    if f != 0 {
        assert(f != 0 && f == x & m && m & mo == 0 && n <= 13 && m & !(((1u16 << n) - 1) as u16)
            == 0 ==> {
            let t = x ^ f ^ (f & ((f - 1) as u16));
            &&& t & mo == x & mo
            &&& t >> 13 == x >> 13
        }) by (bit_vector);
    }
}

/// An exhausted window gives no shape, so a draw from it is refused; filled
/// again it is the whole window of the bag with the hold untouched, and a
/// draw from it then succeeds exactly for the shapes that the bag holds,
/// leaving the whole window less the one slot drawn.
pub proof fn lemma_refill_exhausted(
    q: QueueState,
    bag: &Bag,
    shapes: Seq<Shape>,
    count: u8,
    shape: Shape,
)
    requires
        bag.models(shapes, count),
        shapes.len() <= 13,
        q.window() == 0,
    ensures
        q.spec_take(bag, shape) is None,
        q.spec_swap(bag, shape) is None,
        q.spec_next(bag).window() == bag.full,
        q.spec_next(bag).hold_code() == q.hold_code(),
        q.spec_next(bag).spec_take(bag, shape) is Some <==> shapes.contains(shape),
        q.spec_next(bag).spec_take(bag, shape) matches Some(t) ==> {
            let bit = lowest_bit(shape_mask(shapes, shape));
            &&& bit != 0
            &&& bit & bag.full == bit
            &&& t.window() == bag.full & !bit
            &&& t.hold_code() == q.hold_code()
        },
{
    lemma_shape_masks(shapes, shape, shape);
    lemma_shape_index(shape);
    let x = q.0;
    let m = bag.masks@[shape.spec_index() as int];
    let n = shapes.len() as u16;
    let full = bag.full;
    assert(m == shape_mask(shapes, shape));
    assert(full == ((1u16 << n) - 1) as u16);
    assert(x & 0x1FFF == 0 && n <= 13 && m & !(((1u16 << n) - 1) as u16) == 0 && full == ((1u16
        << n) - 1) as u16 ==> {
        let r = (x & 0xE000) | full;
        let f = r & m;
        let bit = m & !((m - 1) as u16);
        let t = r ^ f ^ (f & ((f - 1) as u16));
        &&& x & m == 0
        &&& r & 0x1FFF == full
        &&& r >> 13 == x >> 13
        &&& f == m
        &&& (m != 0 ==> bit != 0 && bit & full == bit && t & 0x1FFF == full & !bit && t >> 13 == x
            >> 13)
    }) by (bit_vector);
}

/// `push_new` adds at most the one state, and never adds a state twice.
pub proof fn lemma_push_new(acc: Seq<QueueState>, q: QueueState, t: QueueState)
    ensures
        push_new(acc, q).contains(t) <==> acc.contains(t) || t == q,
        acc.no_duplicates() ==> push_new(acc, q).no_duplicates(),
{
    if acc.contains(q) {
    } else {
        let r = acc.push(q);
        assert(r[acc.len() as int] == q);
        if acc.contains(t) {
            let i = choose|i: int| 0 <= i < acc.len() && acc[i] == t;
            assert(r[i] == t);
        }
        if acc.no_duplicates() {
            assert forall|i: int, j: int| 0 <= i < r.len() && 0 <= j < r.len() && i != j implies r[i]
                != r[j] by {
                if i < acc.len() && j < acc.len() {
                } else if i < acc.len() {
                    assert(acc[i] != q);
                } else {
                    assert(acc[j] != q);
                }
            }
        }
    }
}

/// What `push_swaps` holds: what was there, and every state that comes of
/// drawing one of the first `upto` shapes into the hold.
pub proof fn lemma_push_swaps(bag: &Bag, q: QueueState, acc: Seq<QueueState>, upto: nat, t: QueueState)
    ensures
        push_swaps(bag, q, acc, upto).contains(t) <==> acc.contains(t) || exists|k: int|
            0 <= k < upto && #[trigger] q.spec_swap(bag, Shape::at(k)) == Some(t),
        acc.no_duplicates() ==> push_swaps(bag, q, acc, upto).no_duplicates(),
    decreases upto,
{
    if upto > 0 {
        let before = push_swaps(bag, q, acc, (upto - 1) as nat);
        lemma_push_swaps(bag, q, acc, (upto - 1) as nat, t);
        match q.spec_swap(bag, Shape::at(upto - 1)) {
            Some(swapped) => {
                lemma_push_new(before, swapped, t);
            },
            None => {},
        }
        if exists|k: int| 0 <= k < upto && #[trigger] q.spec_swap(bag, Shape::at(k)) == Some(t) {
            let k = choose|k: int| 0 <= k < upto && #[trigger] q.spec_swap(bag, Shape::at(k))
                == Some(t);
            if k < upto - 1 {
            }
        }
    }
}

/// What `push_after` holds: what was there, and the states that `q` can go
/// to.
pub proof fn lemma_push_after(
    bag: &Bag,
    acc: Seq<QueueState>,
    q: QueueState,
    shape: Shape,
    is_first: bool,
    can_hold: bool,
    t: QueueState,
)
    ensures
        push_after(bag, acc, q, shape, is_first, can_hold).contains(t) <==> acc.contains(t) || after(
            bag,
            q,
            shape,
            is_first,
            can_hold,
        ).contains(t),
        acc.no_duplicates() ==> push_after(bag, acc, q, shape, is_first, can_hold).no_duplicates(),
{
    let q1 = if is_first {
        q.spec_next(bag)
    } else {
        q
    };
    if q1.spec_hold() == Some(shape) {
        lemma_push_swaps(bag, q1, acc, 7, t);
    } else if can_hold {
        match q1.spec_take(bag, shape) {
            Some(taken) => {
                lemma_push_new(acc, taken, t);
            },
            None => {},
        }
    }
}

/// `Bag::take` gives each state once.
pub proof fn lemma_take_no_duplicates(
    bag: &Bag,
    queues: Seq<QueueState>,
    shape: Shape,
    is_first: bool,
    can_hold: bool,
)
    ensures
        bag.spec_take(queues, shape, is_first, can_hold).no_duplicates(),
    decreases queues.len(),
{
    if queues.len() > 0 {
        lemma_take_no_duplicates(bag, queues.drop_last(), shape, is_first, can_hold);
        lemma_push_after(
            bag,
            bag.spec_take(queues.drop_last(), shape, is_first, can_hold),
            queues.last(),
            shape,
            is_first,
            can_hold,
            queues.last(),
        );
    }
}

/// `Bag::take` gives exactly the states that one of the given states can go
/// to.
pub proof fn lemma_take_contains(
    bag: &Bag,
    queues: Seq<QueueState>,
    shape: Shape,
    is_first: bool,
    can_hold: bool,
    t: QueueState,
)
    ensures
        bag.spec_take(queues, shape, is_first, can_hold).contains(t) <==> exists|i: int|
            0 <= i < queues.len() && #[trigger] after(bag, queues[i], shape, is_first, can_hold).contains(
                t,
            ),
    decreases queues.len(),
{
    if queues.len() > 0 {
        let rest = queues.drop_last();
        lemma_take_contains(bag, rest, shape, is_first, can_hold, t);
        lemma_push_after(
            bag,
            bag.spec_take(rest, shape, is_first, can_hold),
            queues.last(),
            shape,
            is_first,
            can_hold,
            t,
        );
        if exists|i: int|
            0 <= i < rest.len() && #[trigger] after(bag, rest[i], shape, is_first, can_hold).contains(
                t,
            ) {
            let i = choose|i: int|
                0 <= i < rest.len() && #[trigger] after(
                    bag,
                    rest[i],
                    shape,
                    is_first,
                    can_hold,
                ).contains(t);
            assert(queues[i] == rest[i]);
        }
        if exists|i: int|
            0 <= i < queues.len() && #[trigger] after(
                bag,
                queues[i],
                shape,
                is_first,
                can_hold,
            ).contains(t) {
            let i = choose|i: int|
                0 <= i < queues.len() && #[trigger] after(
                    bag,
                    queues[i],
                    shape,
                    is_first,
                    can_hold,
                ).contains(t);
            if i < rest.len() {
                assert(queues[i] == rest[i]);
            } else {
                assert(queues[i] == queues.last());
            }
        }
    }
}

} // verus!
