//! Why the count of a queue is the number of its piece orders, for bags
//! that hold no shape twice.

use vstd::prelude::*;
use crate::bag_laws::{count16, lemma_shape_masks};
use crate::chance::flattens;
use crate::combinatoric::{
    all_countable, bag_count, bag_slots, count_product, countable, counted_slots, drawable,
    factorial, falling, repeats, BagSpec,
};
use crate::permute::{lemma_permutations_len, permutations};
use crate::shape_counts::{lemma_occurrences_bound, occurrences};
use crate::queue::{low_slots, shape_mask, slot_bit, Bag, QueueState};
use crate::see_model::{continuations, continuations_upto, drawn, refilled};
use crate::shape::{lemma_shape_at, Shape};

verus! {

/// Whether at most one bit of `m` is set.
pub open spec fn single(m: u16) -> bool {
    m == 0 || m & ((m - 1) as u16) == 0
}

/// What the masks of a bag without equal shapes are like: each shape has
/// one slot at most, no slot belongs to two shapes, and the slots of all
/// shapes make up the window, which fits a queue state.
pub open spec fn plain_bag(bag: &Bag) -> bool {
    let m = bag.masks@;
    &&& bag.full & !0x1FFFu16 == 0
    &&& (m[0] | m[1] | m[2] | m[3] | m[4] | m[5] | m[6]) == bag.full
    &&& single(m[0]) && single(m[1]) && single(m[2]) && single(m[3]) && single(m[4]) && single(m[5])
        && single(m[6])
    &&& forall|a: int, b: int| 0 <= a < b < 7 ==> #[trigger] m[a] & #[trigger] m[b] == 0
    &&& forall|k: int| 0 <= k < 7 ==> #[trigger] m[k] & !bag.full == 0
}

/// The slots of all shapes make up the window.
pub proof fn lemma_masks_cover(shapes: Seq<Shape>)
    requires
        shapes.len() <= 13,
    ensures
        (shape_mask(shapes, Shape::I) | shape_mask(shapes, Shape::J) | shape_mask(shapes, Shape::L)
            | shape_mask(shapes, Shape::O) | shape_mask(shapes, Shape::S) | shape_mask(
            shapes,
            Shape::T,
        ) | shape_mask(shapes, Shape::Z)) == low_slots(shapes.len()),
    decreases shapes.len(),
{
    if shapes.len() == 0 {
        assert((0u16 | 0u16 | 0u16 | 0u16 | 0u16 | 0u16 | 0u16) == ((1u16 << 0u16) - 1) as u16)
            by (bit_vector);
    } else {
        let rest = shapes.drop_last();
        lemma_masks_cover(rest);
        let n = (shapes.len() - 1) as u16;
        let bit = slot_bit(n as nat);
        let m0 = shape_mask(rest, Shape::I);
        let m1 = shape_mask(rest, Shape::J);
        let m2 = shape_mask(rest, Shape::L);
        let m3 = shape_mask(rest, Shape::O);
        let m4 = shape_mask(rest, Shape::S);
        let m5 = shape_mask(rest, Shape::T);
        let m6 = shape_mask(rest, Shape::Z);
        let x = shapes.last();
        let d0 = if x == Shape::I { bit } else { 0u16 };
        let d1 = if x == Shape::J { bit } else { 0u16 };
        let d2 = if x == Shape::L { bit } else { 0u16 };
        let d3 = if x == Shape::O { bit } else { 0u16 };
        let d4 = if x == Shape::S { bit } else { 0u16 };
        let d5 = if x == Shape::T { bit } else { 0u16 };
        let d6 = if x == Shape::Z { bit } else { 0u16 };
        assert((d0 | d1 | d2 | d3 | d4 | d5 | d6) == bit) by {
            assert(bit | 0u16 == bit && 0u16 | bit == bit && 0u16 | 0u16 == 0u16) by (bit_vector);
        }
        let n1 = (n + 1) as u16;
        assert(n < 13 && n1 == n + 1 && (m0 | m1 | m2 | m3 | m4 | m5 | m6) == ((1u16 << n) - 1) as u16
            && (d0 | d1 | d2 | d3 | d4 | d5 | d6) == (1u16 << n) ==> ((m0 | d0) | (m1 | d1) | (m2
            | d2) | (m3 | d3) | (m4 | d4) | (m5 | d5) | (m6 | d6)) == ((1u16 << n1) - 1) as u16)
            by (bit_vector);
    }
}

/// In a list without equal shapes each shape has one slot at most.
pub proof fn lemma_mask_single(shapes: Seq<Shape>, shape: Shape)
    requires
        shapes.len() <= 13,
        shapes.no_duplicates(),
    ensures
        single(shape_mask(shapes, shape)),
    decreases shapes.len(),
{
    if shapes.len() == 0 {
    } else {
        let rest = shapes.drop_last();
        lemma_mask_single(rest, shape);
        lemma_shape_masks(rest, shape, shape);
        let n = (shapes.len() - 1) as u16;
        let m = shape_mask(rest, shape);
        if shapes.last() == shape {
            if rest.contains(shape) {
                let i = choose|i: int| 0 <= i < rest.len() && rest[i] == shape;
                assert(shapes[i] == shapes[shapes.len() - 1]);
            }
            assert(m == 0);
            assert(n < 13 ==> ((0u16 | (1u16 << n)) & (((0u16 | (1u16 << n)) - 1) as u16)) == 0)
                by (bit_vector);
        } else {
            assert(m | 0u16 == m) by (bit_vector);
        }
    }
}

/// A bag over a list without equal shapes is plain.
pub proof fn lemma_plain_bag(bag: &Bag, shapes: Seq<Shape>, count: u8)
    requires
        bag.models(shapes, count),
        shapes.len() <= 13,
        shapes.no_duplicates(),
    ensures
        plain_bag(bag),
{
    let m = bag.masks@;
    let n = shapes.len() as u16;
    assert(n <= 13 ==> (((1u16 << n) - 1) as u16) & !0x1FFFu16 == 0) by (bit_vector);
    lemma_masks_cover(shapes);
    assert(m[0] == shape_mask(shapes, Shape::at(0)));
    assert(m[1] == shape_mask(shapes, Shape::at(1)));
    assert(m[2] == shape_mask(shapes, Shape::at(2)));
    assert(m[3] == shape_mask(shapes, Shape::at(3)));
    assert(m[4] == shape_mask(shapes, Shape::at(4)));
    assert(m[5] == shape_mask(shapes, Shape::at(5)));
    assert(m[6] == shape_mask(shapes, Shape::at(6)));
    lemma_mask_single(shapes, Shape::I);
    lemma_mask_single(shapes, Shape::J);
    lemma_mask_single(shapes, Shape::L);
    lemma_mask_single(shapes, Shape::O);
    lemma_mask_single(shapes, Shape::S);
    lemma_mask_single(shapes, Shape::T);
    lemma_mask_single(shapes, Shape::Z);
    assert forall|a: int, b: int| 0 <= a < b < 7 implies #[trigger] m[a] & #[trigger] m[b] == 0 by {
        lemma_shape_at(a);
        lemma_shape_at(b);
        lemma_shape_masks(shapes, Shape::at(a), Shape::at(b));
    }
    assert forall|k: int| 0 <= k < 7 implies #[trigger] m[k] & !bag.full == 0 by {
        lemma_shape_at(k);
        lemma_shape_masks(shapes, Shape::at(k), Shape::at(k));
    }
}

/// How many of the first `upto` shapes have a slot left in `x`.
pub open spec fn avail(bag: &Bag, x: u16, upto: nat) -> nat
    decreases upto,
{
    if upto == 0 {
        0
    } else {
        avail(bag, x, (upto - 1) as nat) + if x & bag.masks@[upto - 1] != 0 {
            1nat
        } else {
            0nat
        }
    }
}

/// In a plain bag as many shapes have a slot left as there are slots left.
pub proof fn lemma_avail_is_count(bag: &Bag, x: u16)
    requires
        plain_bag(bag),
        (x & 0x1FFF) & !bag.full == 0,
    ensures
        avail(bag, x, 7) == count16(x & 0x1FFF),
{
    reveal_with_fuel(avail, 8);
    let m = bag.masks@;
    let m0 = m[0];
    let m1 = m[1];
    let m2 = m[2];
    let m3 = m[3];
    let m4 = m[4];
    let m5 = m[5];
    let m6 = m[6];
    let f = bag.full;
    let a0: u16 = if x & m0 != 0 { 1 } else { 0 };
    let a1: u16 = if x & m1 != 0 { 1 } else { 0 };
    let a2: u16 = if x & m2 != 0 { 1 } else { 0 };
    let a3: u16 = if x & m3 != 0 { 1 } else { 0 };
    let a4: u16 = if x & m4 != 0 { 1 } else { 0 };
    let a5: u16 = if x & m5 != 0 { 1 } else { 0 };
    let a6: u16 = if x & m6 != 0 { 1 } else { 0 };
    assert(m[0] & m[1] == 0 && m[0] & m[2] == 0 && m[0] & m[3] == 0 && m[0] & m[4] == 0 && m[0]
        & m[5] == 0 && m[0] & m[6] == 0);
    assert(m[1] & m[2] == 0 && m[1] & m[3] == 0 && m[1] & m[4] == 0 && m[1] & m[5] == 0 && m[1]
        & m[6] == 0);
    assert(m[2] & m[3] == 0 && m[2] & m[4] == 0 && m[2] & m[5] == 0 && m[2] & m[6] == 0);
    assert(m[3] & m[4] == 0 && m[3] & m[5] == 0 && m[3] & m[6] == 0);
    assert(m[4] & m[5] == 0 && m[4] & m[6] == 0 && m[5] & m[6] == 0);
    lemma_single_count(x, m0);
    lemma_single_count(x, m1);
    lemma_single_count(x, m2);
    lemma_single_count(x, m3);
    lemma_single_count(x, m4);
    lemma_single_count(x, m5);
    lemma_single_count(x, m6);
    lemma_count_disjoint(x, m0, m1);
    lemma_or_disjoint(m0, m1, m2);
    lemma_count_disjoint(x, m0 | m1, m2);
    lemma_or_disjoint(m0, m1, m3);
    lemma_or_disjoint(m0 | m1, m2, m3);
    lemma_count_disjoint(x, m0 | m1 | m2, m3);
    lemma_or_disjoint(m0, m1, m4);
    lemma_or_disjoint(m0 | m1, m2, m4);
    lemma_or_disjoint(m0 | m1 | m2, m3, m4);
    lemma_count_disjoint(x, m0 | m1 | m2 | m3, m4);
    lemma_or_disjoint(m0, m1, m5);
    lemma_or_disjoint(m0 | m1, m2, m5);
    lemma_or_disjoint(m0 | m1 | m2, m3, m5);
    lemma_or_disjoint(m0 | m1 | m2 | m3, m4, m5);
    lemma_count_disjoint(x, m0 | m1 | m2 | m3 | m4, m5);
    lemma_or_disjoint(m0, m1, m6);
    lemma_or_disjoint(m0 | m1, m2, m6);
    lemma_or_disjoint(m0 | m1 | m2, m3, m6);
    lemma_or_disjoint(m0 | m1 | m2 | m3, m4, m6);
    lemma_or_disjoint(m0 | m1 | m2 | m3 | m4, m5, m6);
    lemma_count_disjoint(x, m0 | m1 | m2 | m3 | m4 | m5, m6);
    assert(x & f == x & 0x1FFF) by (bit_vector)
        requires
            (x & 0x1FFF) & !f == 0,
            f & !0x1FFFu16 == 0,
    ;
}

/// A mask of one bit at most meets `x` in one bit or in none.
pub proof fn lemma_single_count(x: u16, m: u16)
    requires
        single(m),
    ensures
        count16(x & m) == (if x & m != 0 {
            1nat
        } else {
            0nat
        }),
{
    assert((m == 0 || m & ((m - 1) as u16) == 0) ==> count16(x & m) == (if x & m != 0 {
        1u16
    } else {
        0u16
    })) by (bit_vector);
}

/// What meets neither of two masks does not meet the two together.
pub proof fn lemma_or_disjoint(a: u16, b: u16, c: u16)
    requires
        a & c == 0,
        b & c == 0,
    ensures
        (a | b) & c == 0,
{
    assert(a & c == 0 && b & c == 0 ==> (a | b) & c == 0) by (bit_vector);
}

/// Two masks that do not meet have as many bits together as each by
/// itself.
pub proof fn lemma_count_disjoint(x: u16, a: u16, b: u16)
    requires
        a & b == 0,
    ensures
        count16(x & (a | b)) == count16(x & a) + count16(x & b),
{
    assert(a & b == 0 ==> count16(x & (a | b)) == count16(x & a) + count16(x & b)) by (bit_vector);
}


/// The orders in which `k` of `n` things can be drawn begin with one of the
/// `n`, and go on with an order of `k - 1` of the others.
pub proof fn lemma_falling_first(n: nat, k: nat)
    requires
        1 <= k <= n,
    ensures
        falling(n, k) == n * falling((n - 1) as nat, (k - 1) as nat),
    decreases k,
{
    if k == 1 {
        assert(falling(n, 0) == 1);
        assert(falling(n, 1) == falling(n, 0) * n);
        assert(1 * n == n * 1) by (nonlinear_arith);
    } else {
        lemma_falling_first(n, (k - 1) as nat);
        let a = falling((n - 1) as nat, (k - 2) as nat);
        let f = (n - k + 1) as nat;
        assert(falling(n, k) == falling(n, (k - 1) as nat) * f);
        assert(falling((n - 1) as nat, (k - 1) as nat) == a * f);
        assert((n * a) * f == n * (a * f)) by (nonlinear_arith);
    }
}

/// Whether `count` entries from `start` on make up one bag: they hold the
/// same plain bag, and are numbered from 0.
pub open spec fn is_group(bags: Seq<(u8, Bag)>, start: nat, count: nat) -> bool {
    &&& 1 <= count <= 13
    &&& start + count <= bags.len()
    &&& plain_bag(&bags[start as int].1)
    &&& forall|i: int|
        0 <= i < count ==> (#[trigger] bags[start + i]).0 == i && bags[start + i].1
            == bags[start as int].1
}

/// Drawing a shape takes one slot from the window and leaves the rest in
/// it.
pub proof fn lemma_take_from_window(bag: &Bag, e: QueueState, k: int)
    requires
        plain_bag(bag),
        0 <= k < 7,
        e.window() & !bag.full == 0,
    ensures
        e.spec_take(bag, Shape::at(k)) is Some <==> e.0 & bag.masks@[k] != 0,
        e.spec_take(bag, Shape::at(k)) matches Some(t) ==> t.window() & !bag.full == 0 && count16(
            t.window(),
        ) + 1 == count16(e.window()),
{
    lemma_shape_at(k);
    let x = e.0;
    let m = bag.masks@[k];
    let full = bag.full;
    let f = x & m;
    assert(m & !full == 0);
    if f != 0 {
        assert(f != 0 && f == x & m && m & !full == 0 && full & !0x1FFFu16 == 0 && (x & 0x1FFF)
            & !full == 0 ==> {
            let t = x ^ f ^ (f & ((f - 1) as u16));
            &&& (t & 0x1FFF) & !full == 0
            &&& count16(t & 0x1FFF) + 1 == count16(x & 0x1FFF)
        }) by (bit_vector);
    }
}

/// Within a bag, from its entry `i` on, the bags give as many piece orders
/// as there are orders to draw the rest of the bag's pieces from the slots
/// left, times the orders that the bags give after it.
pub proof fn lemma_group_count(
    bags: Seq<(u8, Bag)>,
    start: nat,
    count: nat,
    state: QueueState,
    i: nat,
    after: nat,
)
    requires
        is_group(bags, start, count),
        i < count,
        refilled(bags, state, (start + i) as int).window() & !bags[start as int].1.full == 0,
        count - i <= count16(refilled(bags, state, (start + i) as int).window()),
        forall|t: QueueState| #[trigger] continuations(bags, t, start + count) == after,
    ensures
        continuations(bags, state, start + i) == falling(
            count16(refilled(bags, state, (start + i) as int).window()),
            (count - i) as nat,
        ) * after,
    decreases count - i, 8nat,
{
    let bag = &bags[start as int].1;
    let e = refilled(bags, state, (start + i) as int);
    let pc = count16(e.window());
    let r = (count - i) as nat;
    assert(bags[(start + i) as int].1 == bags[start as int].1);
    lemma_group_sum(bags, start, count, state, i, after, 7);
    let x = e.0;
    assert((x & 0x1FFF) & 0x1FFF == x & 0x1FFF) by (bit_vector);
    lemma_avail_is_count(bag, x);
    lemma_falling_first(pc, r);
    let v = falling((pc - 1) as nat, (r - 1) as nat);
    assert(pc * (v * after) == (pc * v) * after) by (nonlinear_arith);
}

/// The piece orders within a bag that begin with one of the first `upto`
/// shapes: as many as these shapes have slots left, times the orders after
/// the first piece.
pub proof fn lemma_group_sum(
    bags: Seq<(u8, Bag)>,
    start: nat,
    count: nat,
    state: QueueState,
    i: nat,
    after: nat,
    upto: nat,
)
    requires
        is_group(bags, start, count),
        i < count,
        upto <= 7,
        refilled(bags, state, (start + i) as int).window() & !bags[start as int].1.full == 0,
        count - i <= count16(refilled(bags, state, (start + i) as int).window()),
        forall|t: QueueState| #[trigger] continuations(bags, t, start + count) == after,
    ensures
        continuations_upto(bags, state, start + i, upto) == avail(
            &bags[start as int].1,
            refilled(bags, state, (start + i) as int).0,
            upto,
        ) * (falling(
            (count16(refilled(bags, state, (start + i) as int).window()) - 1) as nat,
            (count - i - 1) as nat,
        ) * after),
    decreases count - i, upto,
{
    let bag = &bags[start as int].1;
    let p = start + i;
    let e = refilled(bags, state, p as int);
    let pc = count16(e.window());
    let r = (count - i) as nat;
    let v = falling((pc - 1) as nat, (r - 1) as nat) * after;
    assert(bags[(start + i) as int].1 == bags[start as int].1);
    if upto == 0 {
        assert(0 * v == 0) by (nonlinear_arith);
    } else {
        lemma_group_sum(bags, start, count, state, i, after, (upto - 1) as nat);
        let k = upto - 1;
        lemma_take_from_window(bag, e, k);
        let before = avail(bag, e.0, (upto - 1) as nat);
        match drawn(bags, state, p as int, k) {
            Some(t) => {
                if i + 1 < count {
                    let j: int = (i + 1) as int;
                    assert(bags[start + j].0 == j);
                    assert(bags[start + j].1 == bags[start as int].1);
                    assert(refilled(bags, t, (start + i + 1) as int) == t);
                    lemma_group_count(bags, start, count, t, i + 1, after);
                    assert(continuations(bags, t, p + 1) == v);
                } else {
                    assert(continuations(bags, t, start + count) == after);
                    assert(1 * after == after) by (nonlinear_arith);
                    assert(continuations(bags, t, p + 1) == v);
                }
                assert((before + 1) * v == before * v + v) by (nonlinear_arith);
            },
            None => {
                assert((before + 0) * v == before * v) by (nonlinear_arith);
            },
        }
    }
}

/// A whole bag gives as many piece orders as there are orders to draw its
/// pieces from its slots, times the orders that the bags give after it.
pub proof fn lemma_whole_group(
    bags: Seq<(u8, Bag)>,
    start: nat,
    count: nat,
    slots: nat,
    state: QueueState,
    after: nat,
)
    requires
        is_group(bags, start, count),
        count <= slots <= 13,
        bags[start as int].1.full == low_slots(slots),
        forall|t: QueueState| #[trigger] continuations(bags, t, start + count) == after,
    ensures
        continuations(bags, state, start) == falling(slots, count) * after,
{
    let bag = &bags[start as int].1;
    assert(bags[(start + 0) as int].0 == 0);
    let e = refilled(bags, state, start as int);
    let x = state.0;
    let full = bag.full;
    let n = slots as u16;
    assert(n <= 13 && full == ((1u16 << n) - 1) as u16 ==> {
        let w = ((x & 0xE000) | full) & 0x1FFF;
        &&& w == full
        &&& w & !full == 0
        &&& count16(w) == n
    }) by (bit_vector);
    lemma_group_count(bags, start, count, state, 0, after);
}


/// Whether every bag of a queue can be drawn from and holds no shape
/// twice, unless it is ordered.
pub open spec fn plain_queue(queue: Seq<BagSpec>) -> bool {
    forall|i: int|
        0 <= i < queue.len() ==> drawable(#[trigger] queue[i]) && (queue[i].ordered
            || queue[i].shapes.no_duplicates())
}

/// How many entries the first `j` bags of a queue have.
pub open spec fn offset(queue: Seq<BagSpec>, j: int) -> nat {
    counted_slots(queue.take(j)).len()
}

/// The product of the counts of the bags from `j` on.
pub open spec fn suffix_product(queue: Seq<BagSpec>, j: int) -> nat
    decreases queue.len() - j,
{
    if j < 0 || j >= queue.len() {
        1
    } else {
        bag_count(queue[j]) * suffix_product(queue, j + 1)
    }
}

/// The entries of the first bags stand at the front of the entries of the
/// queue.
pub proof fn lemma_slots_prefix(queue: Seq<BagSpec>, j: int)
    requires
        0 <= j <= queue.len(),
    ensures
        offset(queue, j) <= counted_slots(queue).len(),
        forall|x: int|
            0 <= x < offset(queue, j) ==> counted_slots(queue.take(j))[x] == counted_slots(queue)[x],
    decreases queue.len(),
{
    if j == queue.len() {
        assert(queue.take(j) =~= queue);
    } else {
        let rest = queue.drop_last();
        assert(queue.take(j) =~= rest.take(j));
        lemma_slots_prefix(rest, j);
    }
}

/// The entries of bag `j` stand in the queue from its offset on.
pub proof fn lemma_slots_of_bag(queue: Seq<BagSpec>, j: int)
    requires
        0 <= j < queue.len(),
    ensures
        offset(queue, j + 1) == offset(queue, j) + bag_slots(queue[j]).len(),
        offset(queue, j + 1) <= counted_slots(queue).len(),
        forall|i: int|
            0 <= i < bag_slots(queue[j]).len() ==> counted_slots(queue)[offset(queue, j) + i]
                == bag_slots(queue[j])[i],
{
    let longer = queue.take(j + 1);
    assert(longer.drop_last() =~= queue.take(j));
    assert(longer.last() == queue[j]);
    lemma_slots_prefix(queue, j + 1);
    assert forall|i: int| 0 <= i < bag_slots(queue[j]).len() implies counted_slots(queue)[offset(
        queue,
        j,
    ) + i] == bag_slots(queue[j])[i] by {
        assert(counted_slots(longer)[offset(queue, j) + i] == bag_slots(queue[j])[i]);
    }
}

/// A list without equal shapes is counted without a divisor.
pub proof fn lemma_repeats_one(shapes: Seq<Shape>, upto: nat)
    requires
        shapes.no_duplicates(),
        upto <= 7,
    ensures
        repeats(shapes, upto) == 1,
    decreases upto,
{
    if upto > 0 {
        lemma_repeats_one(shapes, (upto - 1) as nat);
        lemma_occurs_once(shapes, Shape::at(upto - 1));
        let o = occurrences(shapes, Shape::at(upto - 1));
        assert(factorial(0) == 1);
        assert(factorial(1) == 1 * factorial(0));
        assert(factorial(o) == 1);
        assert(repeats(shapes, upto) == repeats(shapes, (upto - 1) as nat) * factorial(o));
    }
}

/// In a list without equal shapes no shape occurs twice.
pub proof fn lemma_occurs_once(shapes: Seq<Shape>, shape: Shape)
    requires
        shapes.no_duplicates(),
    ensures
        occurrences(shapes, shape) <= 1,
    decreases shapes.len(),
{
    if shapes.len() > 0 {
        let rest = shapes.drop_last();
        lemma_occurs_once(rest, shape);
        lemma_occurrences_bound(rest, shape);
        if shapes.last() == shape && rest.contains(shape) {
            let i = choose|i: int| 0 <= i < rest.len() && rest[i] == shape;
            assert(shapes[i] == shapes[shapes.len() - 1]);
        }
    }
}

/// Two bags over the same list with the same number of draws are one bag.
pub proof fn lemma_models_one(a: &Bag, b: &Bag, shapes: Seq<Shape>, count: u8)
    requires
        a.models(shapes, count),
        b.models(shapes, count),
    ensures
        *a == *b,
{
    assert(a.masks@ =~= b.masks@);
    assert(a.masks == b.masks);
}

/// From the offset of bag `j` on, the bags give as many piece orders as
/// the product of the counts from that bag on, in whatever state.
pub proof fn lemma_orders_from_bag(
    queue: Seq<BagSpec>,
    bags: Seq<(u8, Bag)>,
    j: int,
    state: QueueState,
)
    requires
        flattens(queue, bags),
        plain_queue(queue),
        0 <= j <= queue.len(),
    ensures
        continuations(bags, state, offset(queue, j)) == suffix_product(queue, j),
    decreases
            queue.len() - j,
            (if j < queue.len() {
                queue[j].shapes.len() + 1
            } else {
                0
            }),
{
    if j == queue.len() {
        assert(queue.take(j) =~= queue);
    } else {
        let bag = queue[j];
        let start = offset(queue, j);
        lemma_slots_of_bag(queue, j);
        if bag.ordered {
            lemma_orders_in_run(queue, bags, j, 0, state);
            assert(1 * suffix_product(queue, j + 1) == suffix_product(queue, j + 1))
                by (nonlinear_arith);
        } else {
            let after = suffix_product(queue, j + 1);
            let count = bag.count;
            assert(bag_slots(bag).len() == count);
            assert forall|t: QueueState| #[trigger]
                continuations(bags, t, start + count) == after by {
                lemma_orders_from_bag(queue, bags, j + 1, t);
            }
            let slots = counted_slots(queue);
            assert(slots[start + 0int] == bag_slots(bag)[0]);
            lemma_plain_bag(&bags[start as int].1, bag.shapes, count as u8);
            assert forall|i: int| 0 <= i < count implies (#[trigger] bags[start + i]).0 == i
                && bags[start + i].1 == bags[start as int].1 by {
                assert(slots[start + i] == bag_slots(bag)[i]);
                lemma_models_one(&bags[start + i].1, &bags[start as int].1, bag.shapes, count as u8);
            }
            lemma_whole_group(bags, start, count, bag.shapes.len(), state, after);
            lemma_repeats_one(bag.shapes, 7);
        }
    }
}

/// Within an ordered bag, from its piece `i` on, the bags give as many
/// piece orders as the product of the counts of the bags after it.
pub proof fn lemma_orders_in_run(
    queue: Seq<BagSpec>,
    bags: Seq<(u8, Bag)>,
    j: int,
    i: nat,
    state: QueueState,
)
    requires
        flattens(queue, bags),
        plain_queue(queue),
        0 <= j < queue.len(),
        queue[j].ordered,
        i <= queue[j].shapes.len(),
    ensures
        continuations(bags, state, offset(queue, j) + i) == suffix_product(queue, j + 1),
    decreases queue.len() - j, queue[j].shapes.len() - i,
{
    let bag = queue[j];
    let start = offset(queue, j);
    lemma_slots_of_bag(queue, j);
    assert(bag_slots(bag).len() == bag.shapes.len());
    if i == bag.shapes.len() {
        lemma_orders_from_bag(queue, bags, j + 1, state);
    } else {
        let after = suffix_product(queue, j + 1);
        let at = start + i;
        let one = seq![bag.shapes[i as int]];
        assert forall|t: QueueState| #[trigger] continuations(bags, t, at + 1) == after by {
            lemma_orders_in_run(queue, bags, j, i + 1, t);
        }
        let slots = counted_slots(queue);
        let x: int = i as int;
        assert(slots[start + x] == bag_slots(bag)[x]);
        assert(one.no_duplicates());
        lemma_plain_bag(&bags[at as int].1, one, 1);
        assert forall|y: int| 0 <= y < 1 implies (#[trigger] bags[at + y]).0 == y && bags[at + y].1
            == bags[at as int].1 by {
        }
        lemma_whole_group(bags, at, 1, 1, state, after);
        assert(falling(1, 1) == 1) by {
            reveal_with_fuel(falling, 2);
        }
        assert(1 * after == after) by (nonlinear_arith);
    }
}

/// The product of the counts, bag by bag from the front, is the product
/// from the back.
pub proof fn lemma_suffix_product(queue: Seq<BagSpec>, j: int)
    requires
        0 <= j <= queue.len(),
    ensures
        count_product(queue.take(j)) * suffix_product(queue, j) == count_product(queue),
    decreases queue.len() - j,
{
    if j == queue.len() {
        assert(queue.take(j) =~= queue);
        assert(count_product(queue) * 1 == count_product(queue)) by (nonlinear_arith);
    } else {
        lemma_suffix_product(queue, j + 1);
        let longer = queue.take(j + 1);
        assert(longer.drop_last() =~= queue.take(j));
        assert(longer.last() == queue[j]);
        let a = count_product(queue.take(j));
        let b = bag_count(queue[j]);
        let c = suffix_product(queue, j + 1);
        assert((a * b) * c == a * (b * c)) by (nonlinear_arith);
    }
}

/// The count of a queue is the number of its piece orders, where no bag
/// holds a shape twice: the product of the counts of the bags is the
/// number of orders that the walk through the bags gives for the whole
/// queue, and every count comes out whole.
pub proof fn lemma_count_is_number_of_orders(queue: Seq<BagSpec>, bags: Seq<(u8, Bag)>)
    requires
        flattens(queue, bags),
        plain_queue(queue),
        bags.len() > 0,
    ensures
        all_countable(queue),
        permutations(bags, QueueState(bags[0].1.full), 0, bags.len()).len() == count_product(queue),
{
    let start = QueueState(bags[0].1.full);
    lemma_permutations_len(bags, start, 0);
    assert(queue.take(0) =~= Seq::<BagSpec>::empty());
    lemma_orders_from_bag(queue, bags, 0, start);
    lemma_suffix_product(queue, 0);
    assert(1 * suffix_product(queue, 0) == suffix_product(queue, 0)) by (nonlinear_arith);
    assert forall|i: int| 0 <= i < queue.len() implies countable(#[trigger] queue[i]) by {
        if !queue[i].ordered {
            lemma_repeats_one(queue[i].shapes, 7);
        }
    }
}

} // verus!
