//! A queue as a list of bags: runs of pieces in a fixed order, and bags from
//! which some pieces are drawn in any order.

use vstd::prelude::*;
use crate::queue::{Bag, MAX_SLOTS};
use crate::shape::{lemma_shape_at, lemma_shape_index, Shape};
use crate::text::{decimal, push_char, push_decimal};
use crate::shape_counts::{
    lemma_occurrences_bound, occurrences, shape_counts_contents, shape_set_from_list, ShapeCounts,
};

verus! {

/// What a bag of a queue says: an ordered bag gives its shapes one by one
/// as they stand; from any other bag `count` pieces are drawn in any order.
pub struct BagSpec {
    pub shapes: Seq<Shape>,
    pub count: nat,
    pub ordered: bool,
}

/// One bag of a queue.
pub struct BagInput {
    shapes: Vec<Shape>,
    count: u8,
    shape_set: ShapeCounts,
    ordered: bool,
}

/// A queue: its bags one after the other.
pub struct CombinatoricQueue {
    bags: Vec<BagInput>,
}

/// The product of the numbers from 1 to `n`.
pub open spec fn factorial(n: nat) -> nat
    decreases n,
{
    if n == 0 {
        1
    } else {
        n * factorial((n - 1) as nat)
    }
}

/// The product of the `k` numbers from `n - k + 1` to `n`: in how many
/// orders `k` of `n` different things can be drawn.
pub open spec fn falling(n: nat, k: nat) -> nat
    decreases k,
{
    if k == 0 || k > n {
        1
    } else {
        falling(n, (k - 1) as nat) * ((n - k + 1) as nat)
    }
}

/// The product, over the first `upto` shapes, of the factorial of how often
/// the shape occurs in `shapes`.
pub open spec fn repeats(shapes: Seq<Shape>, upto: nat) -> nat
    decreases upto,
{
    if upto == 0 {
        1
    } else {
        repeats(shapes, (upto - 1) as nat) * factorial(occurrences(shapes, Shape::at(upto - 1)))
    }
}

/// Whether the count of a bag comes out whole.
pub open spec fn countable(bag: BagSpec) -> bool {
    bag.ordered || falling(bag.shapes.len(), bag.count) % repeats(bag.shapes, 7) == 0
}

/// The number of piece orders that a bag is counted for: one for an ordered
/// bag; for any other the number of orders in which `count` of its slots
/// can be drawn, divided by the orders of equal shapes among themselves.
pub open spec fn bag_count(bag: BagSpec) -> nat {
    if bag.ordered {
        1
    } else {
        falling(bag.shapes.len(), bag.count) / repeats(bag.shapes, 7)
    }
}

/// Whether the count of every bag comes out whole.
pub open spec fn all_countable(bags: Seq<BagSpec>) -> bool {
    forall|i: int| 0 <= i < bags.len() ==> countable(#[trigger] bags[i])
}

/// The product of the counts of the bags.
pub open spec fn count_product(bags: Seq<BagSpec>) -> nat
    decreases bags.len(),
{
    if bags.len() == 0 {
        1
    } else {
        count_product(bags.drop_last()) * bag_count(bags.last())
    }
}

/// The shapes that do not occur in `shapes`, in canonical order, as far as
/// the first `upto` shapes go.
pub open spec fn complement(shapes: Seq<Shape>, upto: nat) -> Seq<Shape>
    decreases upto,
{
    if upto == 0 {
        Seq::empty()
    } else if shapes.contains(Shape::at(upto - 1)) {
        complement(shapes, (upto - 1) as nat)
    } else {
        complement(shapes, (upto - 1) as nat).push(Shape::at(upto - 1))
    }
}

/// The bag that `add_bag` adds.
pub open spec fn unordered_bag(shapes: Seq<Shape>, count: Option<u8>, inverted: bool) -> BagSpec {
    let listed = if inverted {
        complement(shapes, 7)
    } else {
        shapes
    };
    BagSpec {
        shapes: listed,
        count: match count {
            Some(c) => c as nat,
            None => listed.len(),
        },
        ordered: false,
    }
}

/// Whether a bag can be drawn from: at least one piece is drawn, no more
/// than the bag has slots, and the slots fit the window of a queue state.
pub open spec fn drawable(bag: BagSpec) -> bool {
    bag.ordered || (0 < bag.count <= bag.shapes.len() <= MAX_SLOTS)
}

/// One entry of the flattened queue: the place of the piece in its bag, and
/// the bag as a list of shapes of which `count` are drawn.
pub struct Slot {
    pub index: nat,
    pub shapes: Seq<Shape>,
    pub count: nat,
}

/// The entries of one bag: an ordered bag gives an entry for each of its
/// shapes, each the first and only draw from a bag of that one shape; any
/// other bag gives `count` entries of the same bag, numbered from 0.
pub open spec fn bag_slots(bag: BagSpec) -> Seq<Slot> {
    if bag.ordered {
        Seq::new(bag.shapes.len(), |i: int| Slot { index: 0, shapes: seq![bag.shapes[i]], count: 1 })
    } else {
        Seq::new(bag.count, |i: int| Slot { index: i as nat, shapes: bag.shapes, count: bag.count })
    }
}

/// The entries of all bags one after the other.
pub open spec fn counted_slots(bags: Seq<BagSpec>) -> Seq<Slot>
    decreases bags.len(),
{
    if bags.len() == 0 {
        Seq::empty()
    } else {
        counted_slots(bags.drop_last()) + bag_slots(bags.last())
    }
}

/// `16` to the power `e`.
pub open spec fn pow16(e: nat) -> nat
    decreases e,
{
    if e == 0 {
        1
    } else {
        16 * pow16((e - 1) as nat)
    }
}

proof fn lemma_pow16_add(a: nat, b: nat)
    ensures
        pow16(a + b) == pow16(a) * pow16(b),
    decreases b,
{
    if b > 0 {
        lemma_pow16_add(a, (b - 1) as nat);
        assert(pow16(a + b) == 16 * pow16((a + b - 1) as nat));
        assert(16 * (pow16(a) * pow16((b - 1) as nat)) == pow16(a) * (16 * pow16((b - 1) as nat)))
            by (nonlinear_arith);
    } else {
        assert(pow16(a) * 1 == pow16(a)) by (nonlinear_arith);
    }
}

proof fn lemma_pow16_bound(e: nat)
    requires
        e <= 13,
    ensures
        1 <= pow16(e) <= 0x10_0000_0000_0000,
    decreases 13 - e,
{
    reveal_with_fuel(pow16, 14);
    if e < 13 {
        lemma_pow16_bound(e + 1);
    }
}

proof fn lemma_falling_bound(n: nat, k: nat)
    requires
        n <= 13,
        k <= n,
    ensures
        1 <= falling(n, k) <= pow16(k),
    decreases k,
{
    if k > 0 {
        lemma_falling_bound(n, (k - 1) as nat);
        let a = falling(n, (k - 1) as nat);
        let f = (n - k + 1) as nat;
        let p = pow16((k - 1) as nat);
        assert(1 <= a * f <= 16 * p) by (nonlinear_arith)
            requires
                1 <= a <= p,
                1 <= f <= 13,
        ;
    }
}

proof fn lemma_factorial_bound(n: nat)
    ensures
        1 <= factorial(n),
        n <= 13 ==> factorial(n) <= pow16(n),
    decreases n,
{
    if n > 0 {
        lemma_factorial_bound((n - 1) as nat);
        let a = factorial((n - 1) as nat);
        assert(1 <= n * a) by (nonlinear_arith)
            requires
                1 <= a,
                1 <= n,
        ;
        if n <= 13 {
            let p = pow16((n - 1) as nat);
            assert(n * a <= 16 * p) by (nonlinear_arith)
                requires
                    1 <= a <= p,
                    1 <= n <= 13,
            ;
        }
    }
}

/// How often the first `upto` shapes occur in `shapes`, taken together.
pub open spec fn occurrences_below(shapes: Seq<Shape>, upto: nat) -> nat
    decreases upto,
{
    if upto == 0 {
        0
    } else {
        occurrences_below(shapes, (upto - 1) as nat) + occurrences(shapes, Shape::at(upto - 1))
    }
}

proof fn lemma_occurrences_below(shapes: Seq<Shape>, upto: nat)
    requires
        upto <= 7,
    ensures
        occurrences_below(shapes, upto) <= shapes.len(),
        shapes.len() > 0 ==> occurrences_below(shapes, upto) == occurrences_below(
            shapes.drop_last(),
            upto,
        ) + if shapes.last().spec_index() < upto {
            1nat
        } else {
            0nat
        },
    decreases shapes.len(), upto,
{
    if shapes.len() == 0 {
        if upto > 0 {
            lemma_occurrences_below(shapes, (upto - 1) as nat);
        }
    } else {
        if upto > 0 {
            lemma_occurrences_below(shapes, (upto - 1) as nat);
            lemma_shape_at(upto - 1);
            lemma_shape_index(shapes.last());
        }
        lemma_occurrences_below(shapes.drop_last(), upto);
    }
}

proof fn lemma_repeats_bound(shapes: Seq<Shape>, upto: nat)
    requires
        upto <= 7,
        shapes.len() <= 13,
    ensures
        1 <= repeats(shapes, upto) <= pow16(occurrences_below(shapes, upto)),
    decreases upto,
{
    if upto > 0 {
        lemma_repeats_bound(shapes, (upto - 1) as nat);
        lemma_occurrences_below(shapes, upto);
        let o = occurrences(shapes, Shape::at(upto - 1));
        let before = occurrences_below(shapes, (upto - 1) as nat);
        lemma_factorial_bound(o);
        lemma_pow16_add(before, o);
        let a = repeats(shapes, (upto - 1) as nat);
        let f = factorial(o);
        let pa = pow16(before);
        let pf = pow16(o);
        assert(1 <= a * f <= pa * pf) by (nonlinear_arith)
            requires
                1 <= a <= pa,
                1 <= f <= pf,
        ;
    }
}

impl BagInput {
    /// What the bag says.
    pub closed spec fn view(&self) -> BagSpec {
        BagSpec {
            shapes: self.shapes@,
            count: if self.ordered {
                0
            } else {
                self.count as nat
            },
            ordered: self.ordered,
        }
    }

    /// The counts of the shapes agree with the list of shapes, and the bag
    /// can be drawn from.
    pub closed spec fn wf(&self) -> bool {
        &&& self.shape_set.counts(self.shapes@)
        &&& drawable(self.view())
    }
}

impl CombinatoricQueue {
    /// The bags of the queue.
    pub closed spec fn view(&self) -> Seq<BagSpec> {
        self.bags@.map_values(|b: BagInput| b.view())
    }

    /// Every bag is well formed.
    pub closed spec fn wf(&self) -> bool {
        forall|i: int| 0 <= i < self.bags@.len() ==> (#[trigger] self.bags@[i]).wf()
    }

    /// In a well-formed queue every bag can be drawn from.
    pub proof fn lemma_wf(&self)
        requires
            self.wf(),
        ensures
            forall|i: int| 0 <= i < self@.len() ==> drawable(#[trigger] self@[i]),
    {
        assert forall|i: int| 0 <= i < self@.len() implies drawable(#[trigger] self@[i]) by {
            assert(self.bags@[i].wf());
        }
    }

    /// The queue without bags.
    pub fn new() -> (r: Self)
        ensures
            r.wf(),
            r@ == Seq::<BagSpec>::empty(),
    {
        let r = CombinatoricQueue { bags: Vec::new() };
        assert(r@ =~= Seq::<BagSpec>::empty());
        r
    }

    /// Adds a run of pieces that come in the order given.
    pub fn add_shapes(&mut self, shapes: Vec<Shape>)
        requires
            old(self).wf(),
        ensures
            final(self).wf(),
            final(self)@ == old(self)@.push(BagSpec { shapes: shapes@, count: 0, ordered: true }),
    {
        let count: u8 = if shapes.len() < 256 {
            shapes.len() as u8
        } else {
            255
        };
        let shape_set = shape_set_from_list(shapes.as_slice());
        self.bags.push(BagInput { shapes, count, ordered: true, shape_set });
        assert(self@ =~= old(self)@.push(BagSpec { shapes: shapes@, count: 0, ordered: true }));
    }

    /// Adds a bag from which `count` pieces are drawn in any order; all of
    /// them where `count` is `None`. With `inverted` the bag holds the shapes
    /// that are not listed, in canonical order.
    pub fn add_bag(&mut self, shapes: Vec<Shape>, count: Option<u8>, inverted: bool)
        requires
            old(self).wf(),
            drawable(unordered_bag(shapes@, count, inverted)),
        ensures
            final(self).wf(),
            final(self)@ == old(self)@.push(unordered_bag(shapes@, count, inverted)),
    {
        let new_shapes = if inverted {
            invert_shapes(&shapes)
        } else {
            shapes
        };
        let shape_len = new_shapes.len();
        let draws = match count {
            Some(count) => count,
            None => shape_len as u8,
        };
        let shape_set = shape_set_from_list(new_shapes.as_slice());
        self.bags.push(BagInput { shapes: new_shapes, count: draws, ordered: false, shape_set });
        assert(self@ =~= old(self)@.push(unordered_bag(shapes@, count, inverted)));
    }

    /// The number of piece orders of the queue, counted bag by bag; `None`
    /// where the count of a bag does not come out whole, or the number is
    /// too large for a `usize`.
    pub fn checked_queue_count(&self) -> (r: Option<usize>)
        requires
            self.wf(),
        ensures
            r == (if all_countable(self@) && count_product(self@) <= usize::MAX {
                Some(count_product(self@) as usize)
            } else {
                None
            }),
    {
        let mut count: u64 = 1;
        let mut i: usize = 0;
        proof {
            assert(self@.take(0) =~= Seq::<BagSpec>::empty());
        }
        while i < self.bags.len()
            invariant
                i <= self.bags@.len(),
                self.wf(),
                all_countable(self@.take(i as int)),
                count == count_product(self@.take(i as int)),
                count >= 1,
            decreases self.bags@.len() - i,
        {
            let bag_input = &self.bags[i];
            let ghost done = self@.take(i as int);
            let ghost more = self@.take(i + 1);
            let ghost spec = self@[i as int];
            proof {
                assert(self.bags@[i as int].wf());
                assert(more.drop_last() =~= done);
                assert(more.last() == spec);
                assert(spec == bag_input.view());
            }
            if !bag_input.ordered {
                let len = bag_input.shapes.len();
                let draws = bag_input.count as usize;
                let mut numerator: u64 = 1;
                let mut k: usize = 0;
                while k < draws
                    invariant
                        k <= draws <= len <= 13,
                        numerator == falling(len as nat, k as nat),
                    decreases draws - k,
                {
                    proof {
                        lemma_falling_bound(len as nat, k as nat);
                        lemma_falling_bound(len as nat, (k + 1) as nat);
                        lemma_pow16_bound(k as nat);
                        lemma_pow16_bound((k + 1) as nat);
                    }
                    k = k + 1;
                    numerator = numerator * ((len - k + 1) as u64);
                }
                let mut denominator: u64 = 1;
                let mut s: usize = 0;
                while s < 7
                    invariant
                        s <= 7,
                        bag_input.shapes@.len() <= 13,
                        bag_input.shape_set.counts(bag_input.shapes@),
                        denominator == repeats(bag_input.shapes@, s as nat),
                    decreases 7 - s,
                {
                    let shape = Shape::from_index(s).unwrap();
                    let times = bag_input.shape_set.get(shape);
                    proof {
                        lemma_shape_at(s as int);
                        lemma_occurrences_bound(bag_input.shapes@, shape);
                        assert(shape_counts_contents(bag_input.shape_set).contains_key(s as u8) <==> s
                            < 7 && occurrences(bag_input.shapes@, Shape::at(s as u8 as int)) > 0);
                        assert(times == occurrences(bag_input.shapes@, shape));
                    }
                    let mut fact: u64 = 1;
                    let mut m: usize = 0;
                    while m < times
                        invariant
                            m <= times <= 13,
                            fact == factorial(m as nat),
                        decreases times - m,
                    {
                        proof {
                            lemma_factorial_bound(m as nat);
                            lemma_factorial_bound((m + 1) as nat);
                            lemma_pow16_bound(m as nat);
                            lemma_pow16_bound((m + 1) as nat);
                        }
                        m = m + 1;
                        fact = (m as u64) * fact;
                    }
                    proof {
                        lemma_repeats_bound(bag_input.shapes@, (s + 1) as nat);
                        lemma_occurrences_below(bag_input.shapes@, (s + 1) as nat);
                        lemma_pow16_bound(occurrences_below(bag_input.shapes@, (s + 1) as nat));
                    }
                    denominator = denominator * fact;
                    s = s + 1;
                }
                proof {
                    lemma_repeats_bound(bag_input.shapes@, 7);
                    lemma_falling_bound(len as nat, draws as nat);
                }
                if numerator % denominator != 0 {
                    proof {
                        assert(!countable(self@[i as int]));
                    }
                    return None;
                }
                let ways = numerator / denominator;
                proof {
                    let n = numerator as nat;
                    let d = denominator as nat;
                    assert(n / d >= 1) by (nonlinear_arith)
                        requires
                            n >= 1,
                            d >= 1,
                            n % d == 0,
                    ;
                }
                match count.checked_mul(ways) {
                    Some(product) => {
                        count = product;
                    },
                    None => {
                        proof {
                            if all_countable(self@) {
                                self.lemma_wf();
                                lemma_count_product_grows(self@, (i + 1) as nat);
                            }
                        }
                        return None;
                    },
                }
                proof {
                    let c = count_product(done);
                    let w = ways as nat;
                    assert(c * w >= 1) by (nonlinear_arith)
                        requires
                            c >= 1,
                            w >= 1,
                    ;
                }
            } else {
                proof {
                    let c = count_product(done);
                    assert(c * 1 == c) by (nonlinear_arith);
                }
            }
            proof {
                assert forall|j: int| 0 <= j < more.len() implies countable(#[trigger] more[j]) by {
                    if j < i {
                        assert(done[j] == more[j]);
                    }
                }
            }
            i = i + 1;
        }
        proof {
            assert(self@.take(self@.len() as int) =~= self@);
        }
        if count > usize::MAX as u64 {
            None
        } else {
            Some(count as usize)
        }
    }

    /// The number of piece orders of the queue, counted bag by bag.
    pub fn queue_count(&self) -> (r: usize)
        requires
            self.wf(),
            all_countable(self@),
            count_product(self@) <= usize::MAX,
        ensures
            r == count_product(self@),
    {
        self.checked_queue_count().unwrap()
    }

    /// The queue piece by piece: for each piece its place in its bag, which
    /// is 0 where the window is filled again, and the bag it is drawn from.
    pub fn get_counted_bags(&self) -> (r: Vec<(u8, Bag)>)
        requires
            self.wf(),
        ensures
            r@.len() == counted_slots(self@).len(),
            forall|i: int|
                0 <= i < r@.len() ==> (#[trigger] r@[i]).0 == counted_slots(self@)[i].index && r@[i].1.models(
                    counted_slots(self@)[i].shapes,
                    counted_slots(self@)[i].count as u8,
                ) && counted_slots(self@)[i].count <= 13,
    {
        let mut out: Vec<(u8, Bag)> = Vec::new();
        let mut i: usize = 0;
        proof {
            assert(self@.take(0) =~= Seq::<BagSpec>::empty());
        }
        while i < self.bags.len()
            invariant
                i <= self.bags@.len(),
                self.wf(),
                out@.len() == counted_slots(self@.take(i as int)).len(),
                forall|j: int|
                    0 <= j < out@.len() ==> (#[trigger] out@[j]).0 == counted_slots(
                        self@.take(i as int),
                    )[j].index && out@[j].1.models(
                        counted_slots(self@.take(i as int))[j].shapes,
                        counted_slots(self@.take(i as int))[j].count as u8,
                    ) && counted_slots(self@.take(i as int))[j].count <= 13,
            decreases self.bags@.len() - i,
        {
            let input = &self.bags[i];
            let ghost done = counted_slots(self@.take(i as int));
            let ghost spec = self@[i as int];
            let ghost slots = bag_slots(spec);
            let ghost start = out@;
            proof {
                assert(self.bags@[i as int].wf());
                assert(self@.take(i + 1).drop_last() =~= self@.take(i as int));
                assert(self@.take(i + 1).last() == spec);
                assert(spec == input.view());
            }
            if input.ordered {
                let mut k: usize = 0;
                while k < input.shapes.len()
                    invariant
                        k <= input.shapes@.len(),
                        input.ordered,
                        spec == input.view(),
                        slots == bag_slots(spec),
                        out@.len() == start.len() + k,
                        forall|j: int| 0 <= j < start.len() ==> out@[j] == start[j],
                        forall|j: int|
                            0 <= j < k ==> (#[trigger] out@[start.len() + j]).0 == slots[j].index
                                && out@[start.len() + j].1.models(
                                slots[j].shapes,
                                slots[j].count as u8,
                            ) && slots[j].count <= 13,
                    decreases input.shapes@.len() - k,
                {
                    let one = [input.shapes[k]];
                    assert(one@ =~= seq![input.shapes@[k as int]]);
                    out.push((0, Bag::new(one.as_slice(), 1)));
                    k = k + 1;
                }
            } else {
                let mut k: u8 = 0;
                while k < input.count
                    invariant
                        k <= input.count,
                        !input.ordered,
                        input.count as nat <= input.shapes@.len() <= 13,
                        spec == input.view(),
                        slots == bag_slots(spec),
                        out@.len() == start.len() + k,
                        forall|j: int| 0 <= j < start.len() ==> out@[j] == start[j],
                        forall|j: int|
                            0 <= j < k ==> (#[trigger] out@[start.len() + j]).0 == slots[j].index
                                && out@[start.len() + j].1.models(
                                slots[j].shapes,
                                slots[j].count as u8,
                            ) && slots[j].count <= 13,
                    decreases input.count - k,
                {
                    out.push((k, Bag::new(input.shapes.as_slice(), input.count)));
                    k = k + 1;
                }
            }
            proof {
                let next = counted_slots(self@.take(i + 1));
                assert(next == done + slots);
                assert(out@.len() == next.len());
                assert forall|j: int| 0 <= j < out@.len() implies (#[trigger] out@[j]).0
                    == next[j].index && out@[j].1.models(next[j].shapes, next[j].count as u8)
                    && next[j].count <= 13 by {
                    if j < start.len() {
                        assert(out@[j] == start[j]);
                        assert(next[j] == done[j]);
                    } else {
                        let x = j - start.len();
                        assert(out@[start.len() + x] == out@[j]);
                        assert(next[j] == slots[x]);
                    }
                }
            }
            i = i + 1;
        }
        proof {
            assert(self@.take(self@.len() as int) =~= self@);
        }
        out
    }
}

/// The product over more bags is no smaller, as each bag that counts counts
/// for one order at least.
proof fn lemma_count_product_grows(bags: Seq<BagSpec>, upto: nat)
    requires
        upto <= bags.len(),
        all_countable(bags),
        forall|i: int| 0 <= i < bags.len() ==> drawable(#[trigger] bags[i]),
    ensures
        1 <= count_product(bags.take(upto as int)) <= count_product(bags),
    decreases bags.len() - upto,
{
    lemma_count_product_positive(bags.take(upto as int));
    if upto < bags.len() {
        lemma_count_product_grows(bags, upto + 1);
        let shorter = bags.take(upto as int);
        let longer = bags.take(upto as int + 1);
        assert(longer.drop_last() =~= shorter);
        lemma_bag_count_positive(longer.last());
        let a = count_product(shorter);
        let b = bag_count(longer.last());
        assert(a <= a * b) by (nonlinear_arith)
            requires
                a >= 1,
                b >= 1,
        ;
    } else {
        assert(bags.take(upto as int) =~= bags);
    }
}

proof fn lemma_bag_count_positive(bag: BagSpec)
    requires
        countable(bag),
        drawable(bag),
    ensures
        bag_count(bag) >= 1,
{
    if !bag.ordered {
        lemma_falling_bound(bag.shapes.len(), bag.count);
        lemma_repeats_bound(bag.shapes, 7);
        let n = falling(bag.shapes.len(), bag.count);
        let d = repeats(bag.shapes, 7);
        assert(n / d >= 1) by (nonlinear_arith)
            requires
                n >= 1,
                d >= 1,
                n % d == 0,
        ;
    }
}

proof fn lemma_count_product_positive(bags: Seq<BagSpec>)
    requires
        all_countable(bags),
        forall|i: int| 0 <= i < bags.len() ==> drawable(#[trigger] bags[i]),
    ensures
        count_product(bags) >= 1,
    decreases bags.len(),
{
    if bags.len() > 0 {
        let rest = bags.drop_last();
        assert forall|i: int| 0 <= i < rest.len() implies countable(#[trigger] rest[i]) && drawable(
            rest[i],
        ) by {
            assert(rest[i] == bags[i]);
        }
        lemma_count_product_positive(rest);
        lemma_bag_count_positive(bags.last());
        let a = count_product(rest);
        let b = bag_count(bags.last());
        assert(a * b >= 1) by (nonlinear_arith)
            requires
                a >= 1,
                b >= 1,
        ;
    }
}

/// The shapes that do not occur in `shapes`, in canonical order.
pub fn invert_shapes(shapes: &Vec<Shape>) -> (r: Vec<Shape>)
    ensures
        r@ == complement(shapes@, 7),
{
    let mut new_shapes: Vec<Shape> = Vec::new();
    let mut k: usize = 0;
    while k < 7
        invariant
            k <= 7,
            new_shapes@ == complement(shapes@, k as nat),
        decreases 7 - k,
    {
        let shape = Shape::from_index(k).unwrap();
        if !contains_shape(shapes, shape) {
            new_shapes.push(shape);
        }
        k = k + 1;
    }
    new_shapes
}

/// Whether `shape` occurs in `shapes`.
pub fn contains_shape(shapes: &Vec<Shape>, shape: Shape) -> (r: bool)
    ensures
        r == shapes@.contains(shape),
{
    let mut i: usize = 0;
    while i < shapes.len()
        invariant
            i <= shapes.len(),
            forall|j: int| 0 <= j < i ==> shapes@[j] != shape,
        decreases shapes.len() - i,
    {
        if shapes[i] == shape {
            return true;
        }
        i = i + 1;
    }
    false
}


/// The letters of a list of shapes.
pub open spec fn names(shapes: Seq<Shape>) -> Seq<char> {
    shapes.map_values(|s: Shape| s.spec_name())
}

/// How a bag is written: the bag of all seven shapes in canonical order as
/// `*`; an ordered bag as its letters; any other bag as its letters in
/// brackets. After a bag that is not ordered stands `!` where all of its
/// pieces are drawn, unless it is written `*`; else `p` and the number of
/// draws where that is more than one.
pub open spec fn display_bag(bag: BagSpec) -> Seq<char> {
    let star = bag.shapes == Shape::spec_all();
    let body = if star {
        seq!['*']
    } else if bag.ordered {
        names(bag.shapes)
    } else {
        seq!['['] + names(bag.shapes) + seq![']']
    };
    let draws = if bag.ordered {
        Seq::empty()
    } else if bag.count == bag.shapes.len() && !star {
        seq!['!']
    } else if bag.count > 1 {
        seq!['p'] + decimal(bag.count)
    } else {
        Seq::empty()
    };
    body + draws
}

/// How a queue is written: its bags with commas between them.
pub open spec fn display(bags: Seq<BagSpec>) -> Seq<char>
    decreases bags.len(),
{
    if bags.len() == 0 {
        Seq::empty()
    } else if bags.len() == 1 {
        display_bag(bags[0])
    } else {
        display(bags.drop_last()) + seq![','] + display_bag(bags.last())
    }
}

/// Whether `shapes` are the seven shapes in canonical order.
pub fn is_all_shapes(shapes: &Vec<Shape>) -> (r: bool)
    ensures
        r == (shapes@ == Shape::spec_all()),
{
    if shapes.len() != 7 {
        return false;
    }
    let mut k: usize = 0;
    while k < 7
        invariant
            k <= 7,
            shapes@.len() == 7,
            forall|j: int| 0 <= j < k ==> shapes@[j] == Shape::spec_all()[j],
        decreases 7 - k,
    {
        if shapes[k] != Shape::from_index(k).unwrap() {
            return false;
        }
        k = k + 1;
    }
    assert(shapes@ =~= Shape::spec_all());
    true
}

/// Appends the letters of `shapes`.
pub fn push_names(text: &mut String, shapes: &Vec<Shape>)
    ensures
        final(text)@ == old(text)@ + names(shapes@),
{
    let mut k: usize = 0;
    assert(text@ =~= old(text)@ + names(shapes@.take(0)));
    while k < shapes.len()
        invariant
            k <= shapes.len(),
            text@ == old(text)@ + names(shapes@.take(k as int)),
        decreases shapes.len() - k,
    {
        push_char(text, shapes[k].name());
        assert(names(shapes@.take(k + 1)) =~= names(shapes@.take(k as int)).push(
            shapes@[k as int].spec_name(),
        ));
        assert(text@ =~= old(text)@ + names(shapes@.take(k + 1)));
        k = k + 1;
    }
    assert(shapes@.take(shapes@.len() as int) =~= shapes@);
}

impl BagInput {
    /// Appends the bag in its notation.
    pub fn push_to(&self, text: &mut String)
        ensures
            final(text)@ == old(text)@ + display_bag(self.view()),
    {
        let ghost bag = self.view();
        let star = is_all_shapes(&self.shapes);
        if star {
            push_char(text, '*');
        } else {
            if !self.ordered {
                push_char(text, '[');
            }
            push_names(text, &self.shapes);
            if !self.ordered {
                push_char(text, ']');
            }
        }
        let ghost body = if star {
            seq!['*']
        } else if bag.ordered {
            names(bag.shapes)
        } else {
            seq!['['] + names(bag.shapes) + seq![']']
        };
        assert(text@ =~= old(text)@ + body);
        if !self.ordered {
            if self.count as usize == self.shapes.len() && !star {
                push_char(text, '!');
                assert(text@ =~= old(text)@ + (body + seq!['!']));
            } else if self.count > 1 {
                push_char(text, 'p');
                push_decimal(text, self.count);
                assert(text@ =~= old(text)@ + (body + (seq!['p'] + decimal(bag.count))));
            } else {
                assert(text@ =~= old(text)@ + (body + Seq::<char>::empty()));
            }
        } else {
            assert(text@ =~= old(text)@ + (body + Seq::<char>::empty()));
        }
    }
}

impl CombinatoricQueue {
    /// The queue in its notation.
    pub fn to_string(&self) -> (r: String)
        ensures
            r@ == display(self@),
    {
        let mut out = String::new();
        let mut i: usize = 0;
        proof {
            assert(self@.take(0) =~= Seq::<BagSpec>::empty());
        }
        while i < self.bags.len()
            invariant
                i <= self.bags@.len(),
                out@ == display(self@.take(i as int)),
            decreases self.bags@.len() - i,
        {
            let inputs = &self.bags[i];
            let ghost before = out@;
            let ghost bag = self@[i as int];
            let ghost more = self@.take(i + 1);
            proof {
                assert(more.drop_last() =~= self@.take(i as int));
                assert(more.last() == bag);
                assert(bag == inputs.view());
            }
            if i > 0 {
                push_char(&mut out, ',');
            }
            inputs.push_to(&mut out);
            proof {
                if i == 0 {
                    assert(more.len() == 1 && more[0] == bag);
                    assert(out@ =~= display_bag(bag));
                } else {
                    assert(out@ =~= before + seq![','] + display_bag(bag));
                }
            }
            i = i + 1;
        }
        proof {
            assert(self@.take(self@.len() as int) =~= self@);
        }
        out
    }
}

} // verus!
