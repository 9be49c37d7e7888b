//! The bag automaton: which pieces are left in the current draw window, and
//! which piece is held.

use vstd::prelude::*;
use crate::shape::Shape;

verus! {

/// The bits of a [`QueueState`] that say which slots of the window are left.
pub const WINDOW_MASK: u16 = 0x1FFF;

/// The bits of a [`QueueState`] that hold the code of the held shape.
pub const HOLD_MASK: u16 = 0xE000;

/// The largest number of slots a bag can have.
pub const MAX_SLOTS: usize = 13;

/// The bit of slot `i`.
pub open spec fn slot_bit(i: nat) -> u16 {
    1u16 << (i as u16)
}

/// The mask of the slots below `n`.
pub open spec fn low_slots(n: nat) -> u16 {
    ((1u16 << (n as u16)) - 1) as u16
}

/// The mask of the slots of `shapes` that hold `shape`.
pub open spec fn shape_mask(shapes: Seq<Shape>, shape: Shape) -> u16
    decreases shapes.len(),
{
    if shapes.len() == 0 {
        0
    } else {
        shape_mask(shapes.drop_last(), shape) | if shapes.last() == shape {
            slot_bit((shapes.len() - 1) as nat)
        } else {
            0u16
        }
    }
}

/// A draw window: `count` draws are made from the slots of `full` before the
/// window is filled again, and `masks` says which slots hold which shape.
#[derive(Clone, Copy, Debug, PartialEq, Eq, Hash, PartialOrd, Ord)]
pub struct Bag {
    pub count: u8,
    pub full: u16,
    pub masks: [u16; 7],
}

/// Which slots of the current window are left (low 13 bits) and which shape
/// is held (high 3 bits; 7 stands for an empty hold).
#[derive(Clone, Copy, Debug, PartialEq, Eq, Structural, Hash, PartialOrd, Ord)]
pub struct QueueState(pub u16);

impl QueueState {
    /// The slots that are left.
    pub open spec fn window(self) -> u16 {
        self.0 & WINDOW_MASK
    }

    /// The code in the hold bits.
    pub open spec fn hold_code(self) -> u16 {
        self.0 >> 13
    }

    /// The held shape; none where the hold bits read 7.
    pub open spec fn spec_hold(self) -> Option<Shape> {
        Shape::spec_from_index(self.hold_code() as int)
    }

    /// The state after the window was filled again from `bag`.
    pub open spec fn spec_next(self, bag: &Bag) -> QueueState {
        QueueState((self.0 & HOLD_MASK) | bag.full)
    }

    /// The slots left of `shape`.
    pub open spec fn shape_field(self, bag: &Bag, shape: Shape) -> u16 {
        self.0 & bag.masks@[shape.spec_index() as int]
    }

    /// The state after one slot of `shape` was used, the lowest one left;
    /// `None` where no slot of that shape is left.
    pub open spec fn spec_take(self, bag: &Bag, shape: Shape) -> Option<QueueState> {
        let field = self.shape_field(bag, shape);
        if field == 0 {
            None
        } else {
            Some(QueueState(self.0 ^ field ^ (field & ((field - 1) as u16))))
        }
    }

    /// The state after `shape` was drawn into the hold.
    pub open spec fn spec_swap(self, bag: &Bag, shape: Shape) -> Option<QueueState> {
        match self.spec_take(bag, shape) {
            None => None,
            Some(taken) => Some(taken.spec_force_swap(shape)),
        }
    }

    /// The state with `shape` in the hold and the window as it is.
    pub open spec fn spec_force_swap(self, shape: Shape) -> QueueState {
        QueueState((self.0 & WINDOW_MASK) | ((shape.spec_index() as u16) << 13))
    }

    /// The held shape; `None` where the hold is empty.
    pub fn hold(self) -> (r: Option<Shape>)
        ensures
            r == self.spec_hold(),
    {
        let raw = self.0;
        let code = raw >> 13;
        assert(code < 8) by (bit_vector)
            requires
                code == raw >> 13,
        ;
        Shape::from_index(code as usize)
    }

    /// Fills the window again from `bag`; the hold stays.
    pub fn next(self, bag: &Bag) -> (r: QueueState)
        ensures
            r == self.spec_next(bag),
    {
        QueueState(self.0 & 0b1110000000000000 | bag.full)
    }

    /// Uses one slot of `shape`; `None` where none is left.
    pub fn take(self, bag: &Bag, shape: Shape) -> (r: Option<QueueState>)
        ensures
            r == self.spec_take(bag, shape),
    {
        let shape_field = self.0 & bag.masks[shape.index()];
        if shape_field == 0 {
            return None;
        }
        let new_shape_field = shape_field & (shape_field - 1);
        Some(QueueState(self.0 ^ shape_field ^ new_shape_field))
    }

    /// Draws `shape` into the hold; `None` where no slot of it is left.
    pub fn swap(self, bag: &Bag, shape: Shape) -> (r: Option<QueueState>)
        ensures
            r == self.spec_swap(bag, shape),
    {
        match self.take(bag, shape) {
            None => None,
            Some(taken) => Some(taken.force_swap(shape)),
        }
    }

    /// Puts `shape` into the hold without drawing it.
    pub fn force_swap(self, shape: Shape) -> (r: QueueState)
        ensures
            r == self.spec_force_swap(shape),
    {
        let code = shape.index() as u16;
        QueueState((self.0 & 0b1111111111111) | (code << 13))
    }
}


/// `acc`, with `q` added at the end unless it is there already.
pub open spec fn push_new(acc: Seq<QueueState>, q: QueueState) -> Seq<QueueState> {
    if acc.contains(q) {
        acc
    } else {
        acc.push(q)
    }
}

/// `acc`, with the states added that come of drawing one of the first `upto`
/// shapes into the hold of `q`.
pub open spec fn push_swaps(bag: &Bag, q: QueueState, acc: Seq<QueueState>, upto: nat) -> Seq<
    QueueState,
>
    decreases upto,
{
    if upto == 0 {
        acc
    } else {
        let before = push_swaps(bag, q, acc, (upto - 1) as nat);
        match q.spec_swap(bag, Shape::at(upto - 1)) {
            Some(swapped) => push_new(before, swapped),
            None => before,
        }
    }
}

/// `acc`, with the states added that `q` can go to when `shape` comes up.
pub open spec fn push_after(
    bag: &Bag,
    acc: Seq<QueueState>,
    q: QueueState,
    shape: Shape,
    is_first: bool,
    can_hold: bool,
) -> Seq<QueueState> {
    let q = if is_first {
        q.spec_next(bag)
    } else {
        q
    };
    if q.spec_hold() == Some(shape) {
        push_swaps(bag, q, acc, 7)
    } else if can_hold {
        match q.spec_take(bag, shape) {
            Some(taken) => push_new(acc, taken),
            None => acc,
        }
    } else {
        acc
    }
}

/// The set of states that `q` can go to when `shape` comes up: where `shape`
/// is the held one, the hold is filled again by any shape that is left;
/// else, where `can_hold` allows, `shape` is drawn from the window.
pub open spec fn after(bag: &Bag, q: QueueState, shape: Shape, is_first: bool, can_hold: bool) -> Set<
    QueueState,
> {
    let q = if is_first {
        q.spec_next(bag)
    } else {
        q
    };
    if q.spec_hold() == Some(shape) {
        Set::new(
            |t: QueueState|
                exists|k: int| 0 <= k < 7 && #[trigger] q.spec_swap(bag, Shape::at(k)) == Some(t),
        )
    } else if can_hold {
        Set::new(|t: QueueState| q.spec_take(bag, shape) == Some(t))
    } else {
        Set::empty()
    }
}

impl Bag {
    /// `self` is the window over `shapes` with `count` draws.
    pub open spec fn models(&self, shapes: Seq<Shape>, count: u8) -> bool {
        &&& self.count == count
        &&& self.full == low_slots(shapes.len())
        &&& forall|k: int| 0 <= k < 7 ==> #[trigger] self.masks@[k] == shape_mask(shapes, Shape::at(k))
    }

    /// The states after the first piece went into the hold, one for each
    /// shape that the window holds.
    pub open spec fn spec_init_hold(&self) -> Seq<QueueState> {
        Seq::new(7, |k: int| QueueState(self.full).spec_swap(self, Shape::at(k))).filter(
            |o: Option<QueueState>| o is Some,
        ).map_values(|o: Option<QueueState>| o->0)
    }

    /// The states that `queues` go to when `shape` comes up, each once, in
    /// the order in which they are first reached.
    pub open spec fn spec_take(
        &self,
        queues: Seq<QueueState>,
        shape: Shape,
        is_first: bool,
        can_hold: bool,
    ) -> Seq<QueueState>
        decreases queues.len(),
    {
        if queues.len() == 0 {
            Seq::empty()
        } else {
            push_after(
                self,
                self.spec_take(queues.drop_last(), shape, is_first, can_hold),
                queues.last(),
                shape,
                is_first,
                can_hold,
            )
        }
    }

    /// The window over `shapes`, of which `count` are drawn before it is
    /// filled again.
    pub fn new(shapes: &[Shape], count: u8) -> (bag: Bag)
        requires
            count as nat <= shapes@.len() <= MAX_SLOTS,
        ensures
            bag.models(shapes@, count),
    {
        let mut masks: [u16; 7] = [0, 0, 0, 0, 0, 0, 0];
        let len = shapes.len();
        let mut i: usize = 0;
        while i < len
            invariant
                len == shapes@.len(),
                i <= len <= MAX_SLOTS,
                forall|k: int|
                    0 <= k < 7 ==> #[trigger] masks@[k] == shape_mask(
                        shapes@.take(i as int),
                        Shape::at(k),
                    ),
            decreases len - i,
        {
            let shape = shapes[i];
            let idx = shape.index();
            let bit: u16 = 1u16 << (i as u16);
            let before = masks[idx];
            let ghost old_masks = masks@;
            masks[idx] = before | bit;
            proof {
                let next = shapes@.take(i + 1);
                assert(next.drop_last() =~= shapes@.take(i as int));
                assert(next.last() == shape);
                crate::shape::lemma_shape_index(shape);
                assert forall|k: int| 0 <= k < 7 implies #[trigger] masks@[k] == shape_mask(
                    next,
                    Shape::at(k),
                ) by {
                    crate::shape::lemma_shape_at(k);
                    let m = old_masks[k];
                    assert(m | 0u16 == m) by (bit_vector);
                }
            }
            i = i + 1;
        }
        assert(shapes@.take(len as int) =~= shapes@);
        let n = len as u16;
        assert((1u16 << n) >= 1) by (bit_vector)
            requires
                n <= 13,
        ;
        Bag { count, full: (1u16 << n) - 1, masks }
    }

    /// The states after the very first piece went into the hold: one for each
    /// shape that the window holds, in canonical order.
    pub fn init_hold(&self) -> (r: Vec<QueueState>)
        ensures
            r@ == self.spec_init_hold(),
    {
        let initial = QueueState(self.full);
        let ghost all = Seq::new(7, |k: int| initial.spec_swap(self, Shape::at(k)));
        let ghost keep = |o: Option<QueueState>| o is Some;
        let ghost strip = |o: Option<QueueState>| o->0;
        let mut states: Vec<QueueState> = Vec::new();
        let mut k: usize = 0;
        assert(all.take(0) =~= Seq::<Option<QueueState>>::empty());
        assert(all.take(0).filter(keep) =~= Seq::<Option<QueueState>>::empty()) by {
            reveal(Seq::filter);
        }
        while k < 7
            invariant
                k <= 7,
                initial == QueueState(self.full),
                all == Seq::new(7, |k: int| initial.spec_swap(self, Shape::at(k))),
                keep == |o: Option<QueueState>| o is Some,
                strip == |o: Option<QueueState>| o->0,
                states@ == all.take(k as int).filter(keep).map_values(strip),
            decreases 7 - k,
        {
            let shape = Shape::from_index(k).unwrap();
            let swapped = initial.swap(self, shape);
            proof {
                let prev = all.take(k as int);
                let cur = all.take(k + 1);
                assert(cur =~= prev.push(all[k as int]));
                assert(cur.drop_last() =~= prev);
                assert(cur.filter(keep) == if keep(cur.last()) {
                    prev.filter(keep).push(cur.last())
                } else {
                    prev.filter(keep)
                }) by {
                    reveal(Seq::filter);
                }
                if swapped is Some {
                    assert(prev.filter(keep).push(cur.last()).map_values(strip) =~= prev.filter(
                        keep,
                    ).map_values(strip).push(swapped->0));
                }
            }
            match swapped {
                Some(state) => {
                    states.push(state);
                },
                None => {},
            }
            k = k + 1;
        }
        assert(all.take(7) =~= all);
        states
    }

    /// The states that `queues` go to when `shape` comes up. With `is_first`
    /// the window is filled again before. A state that holds `shape` gives it
    /// up and takes into the hold any shape that is left; any other state
    /// draws `shape` from the window, where `can_hold` allows and a slot of
    /// it is left. Each state comes once, in the order in which it is first
    /// reached.
    pub fn take(&self, queues: &[QueueState], shape: Shape, is_first: bool, can_hold: bool) -> (r:
        Vec<QueueState>)
        ensures
            r@ == self.spec_take(queues@, shape, is_first, can_hold),
    {
        let mut states: Vec<QueueState> = Vec::new();
        let mut i: usize = 0;
        while i < queues.len()
            invariant
                i <= queues.len(),
                states@ == self.spec_take(queues@.take(i as int), shape, is_first, can_hold),
            decreases queues.len() - i,
        {
            let queue = if is_first {
                queues[i].next(self)
            } else {
                queues[i]
            };
            let ghost start = states@;
            assert(queues@.take(i + 1).drop_last() =~= queues@.take(i as int));
            if queue.hold() == Some(shape) {
                let mut k: usize = 0;
                while k < 7
                    invariant
                        k <= 7,
                        states@ == push_swaps(self, queue, start, k as nat),
                    decreases 7 - k,
                {
                    let swap_shape = Shape::from_index(k).unwrap();
                    match queue.swap(self, swap_shape) {
                        Some(new) => {
                            if !contains_state(&states, new) {
                                states.push(new);
                            }
                        },
                        None => {},
                    }
                    k = k + 1;
                }
            } else if can_hold {
                match queue.take(self, shape) {
                    Some(new) => {
                        if !contains_state(&states, new) {
                            states.push(new);
                        }
                    },
                    None => {},
                }
            }
            i = i + 1;
        }
        assert(queues@.take(queues@.len() as int) =~= queues@);
        states
    }
}

/// Whether `q` occurs in `states`.
pub fn contains_state(states: &Vec<QueueState>, q: QueueState) -> (r: bool)
    ensures
        r == states@.contains(q),
{
    let mut i: usize = 0;
    while i < states.len()
        invariant
            i <= states.len(),
            forall|j: int| 0 <= j < i ==> states@[j] != q,
        decreases states.len() - i,
    {
        if states[i] == q {
            return true;
        }
        i = i + 1;
    }
    false
}

} // verus!
