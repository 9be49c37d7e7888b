//! Every piece order that a queue can give.

use vstd::prelude::*;
use std::collections::VecDeque;
use crate::queue::{Bag, QueueState};
use crate::see_model::{continuations, continuations_upto, drawn};
use crate::shape::Shape;

verus! {

/// Each order of `orders` with `shape` put before it.
pub open spec fn with_first(shape: Shape, orders: Seq<Seq<Shape>>) -> Seq<Seq<Shape>> {
    orders.map_values(|order: Seq<Shape>| seq![shape] + order)
}

/// Each order of `orders` with `prefix` put before it.
pub open spec fn with_prefix(prefix: Seq<Shape>, orders: Seq<Seq<Shape>>) -> Seq<Seq<Shape>> {
    orders.map_values(|order: Seq<Shape>| prefix + order)
}

/// The piece orders that the bags can give for the pieces from `depth` up
/// to `max_depth`, from state `state`: for each shape in canonical order
/// that can come next, that shape and then each order of the pieces after
/// it.
pub open spec fn permutations(
    bags: Seq<(u8, Bag)>,
    state: QueueState,
    depth: nat,
    max_depth: nat,
) -> Seq<Seq<Shape>>
    decreases max_depth - depth, 8nat,
{
    if depth >= max_depth {
        seq![Seq::empty()]
    } else {
        permutations_upto(bags, state, depth, max_depth, 7)
    }
}

/// The piece orders from `depth` on that begin with one of the first `upto`
/// shapes.
pub open spec fn permutations_upto(
    bags: Seq<(u8, Bag)>,
    state: QueueState,
    depth: nat,
    max_depth: nat,
    upto: nat,
) -> Seq<Seq<Shape>>
    decreases max_depth - depth, upto,
{
    if upto == 0 || depth >= max_depth {
        Seq::empty()
    } else {
        permutations_upto(bags, state, depth, max_depth, (upto - 1) as nat) + match drawn(
            bags,
            state,
            depth as int,
            upto - 1,
        ) {
            Some(t) => with_first(Shape::at(upto - 1), permutations(bags, t, depth + 1, max_depth)),
            None => Seq::empty(),
        }
    }
}

/// The orders that the queues of a list hold.
pub open spec fn orders_of(queues: Seq<VecDeque<Shape>>) -> Seq<Seq<Shape>> {
    queues.map_values(|queue: VecDeque<Shape>| queue@)
}

/// There are as many piece orders of the whole queue as the search counts.
pub proof fn lemma_permutations_len(bags: Seq<(u8, Bag)>, state: QueueState, depth: nat)
    ensures
        permutations(bags, state, depth, bags.len()).len() == continuations(bags, state, depth),
    decreases bags.len() - depth, 8nat,
{
    if depth < bags.len() {
        lemma_permutations_upto_len(bags, state, depth, 7);
    }
}

/// There are as many piece orders that begin with one of the first shapes
/// as the search counts.
pub proof fn lemma_permutations_upto_len(
    bags: Seq<(u8, Bag)>,
    state: QueueState,
    depth: nat,
    upto: nat,
)
    ensures
        permutations_upto(bags, state, depth, bags.len(), upto).len() == continuations_upto(
            bags,
            state,
            depth,
            upto,
        ),
    decreases bags.len() - depth, upto,
{
    if upto == 0 || depth >= bags.len() {
    } else {
        lemma_permutations_upto_len(bags, state, depth, (upto - 1) as nat);
        match drawn(bags, state, depth as int, upto - 1) {
            Some(t) => {
                lemma_permutations_len(bags, t, depth + 1);
            },
            None => {},
        }
    }
}

/// A copy of a queue.
pub fn copy_queue(queue: &VecDeque<Shape>) -> (r: VecDeque<Shape>)
    ensures
        r@ == queue@,
{
    let mut out: VecDeque<Shape> = VecDeque::new();
    let mut i: usize = 0;
    while i < queue.len()
        invariant
            i <= queue.len(),
            out@ == queue@.take(i as int),
        decreases queue.len() - i,
    {
        out.push_back(queue[i]);
        assert(out@ =~= queue@.take(i + 1));
        i = i + 1;
    }
    assert(queue@.take(queue@.len() as int) =~= queue@);
    out
}

/// Walks the bag automaton from piece `depth` on and adds to `permutations`
/// every piece order it can give up to piece `max_depth`, each with the
/// pieces of `queue` before it. The queue is used as a stack of work and is
/// handed back as it was.
pub fn recursive_permute_bags(
    bags: &[(u8, Bag)],
    permutations: &mut Vec<VecDeque<Shape>>,
    depth: usize,
    max_depth: usize,
    state: QueueState,
    queue: &mut VecDeque<Shape>,
)
    requires
        depth < max_depth ==> max_depth <= bags@.len(),
    ensures
        final(queue)@ == old(queue)@,
        orders_of(final(permutations)@) == orders_of(old(permutations)@) + with_prefix(
            old(queue)@,
            self::permutations(bags@, state, depth as nat, max_depth as nat),
        ),
    decreases max_depth - depth,
{
    let ghost prefix = queue@;
    let ghost found = orders_of(permutations@);
    if depth >= max_depth {
        let copy = copy_queue(queue);
        permutations.push(copy);
        proof {
            assert(prefix + Seq::<Shape>::empty() =~= prefix);
            assert(orders_of(permutations@) =~= found + with_prefix(
                prefix,
                seq![Seq::<Shape>::empty()],
            ));
        }
        return ;
    }
    let entry = &bags[depth];
    let bag = &entry.1;
    let refilled = if entry.0 == 0 {
        state.next(bag)
    } else {
        state
    };
    let mut k: usize = 0;
    proof {
        assert(found =~= found + with_prefix(
            prefix,
            permutations_upto(bags@, state, depth as nat, max_depth as nat, 0),
        ));
    }
    while k < 7
        invariant
            k <= 7,
            depth < max_depth <= bags@.len(),
            *entry == bags@[depth as int],
            *bag == entry.1,
            refilled == crate::see_model::refilled(bags@, state, depth as int),
            queue@ == prefix,
            orders_of(permutations@) == found + with_prefix(
                prefix,
                permutations_upto(bags@, state, depth as nat, max_depth as nat, k as nat),
            ),
        decreases 7 - k,
    {
        let shape = Shape::from_index(k).unwrap();
        let ghost before = orders_of(permutations@);
        match refilled.take(bag, shape) {
            Some(next) => {
                queue.push_back(shape);
                recursive_permute_bags(bags, permutations, depth + 1, max_depth, next, queue);
                queue.pop_back();
                proof {
                    assert(queue@ =~= prefix);
                    let deeper = self::permutations(
                        bags@,
                        next,
                        (depth + 1) as nat,
                        max_depth as nat,
                    );
                    let l = with_prefix(prefix.push(shape), deeper);
                    let r = with_prefix(prefix, with_first(shape, deeper));
                    assert forall|j: int| 0 <= j < l.len() implies l[j] == r[j] by {
                        assert(prefix.push(shape) + deeper[j] =~= prefix + (seq![shape] + deeper[j]));
                    }
                    assert(l =~= r);
                    let so_far = permutations_upto(
                        bags@,
                        state,
                        depth as nat,
                        max_depth as nat,
                        k as nat,
                    );
                    assert(with_prefix(prefix, so_far + with_first(shape, deeper)) =~= with_prefix(
                        prefix,
                        so_far,
                    ) + r);
                }
            },
            None => {
                proof {
                    let so_far = permutations_upto(
                        bags@,
                        state,
                        depth as nat,
                        max_depth as nat,
                        k as nat,
                    );
                    assert(so_far + Seq::<Seq<Shape>>::empty() =~= so_far);
                }
            },
        }
        k = k + 1;
    }
}

/// Every piece order that the bags can give up to piece `max_depth`, the
/// whole queue where that is `None`. The walk starts at the first piece
/// with the full window of the first bag, or at the piece and in the state
/// that `start_state` gives.
pub fn get_queue_permutations(
    counted_bags: &[(u8, Bag)],
    start_state: Option<(usize, QueueState)>,
    max_depth: Option<usize>,
) -> (r: Vec<VecDeque<Shape>>)
    requires
        start_state is None ==> counted_bags@.len() > 0,
        match max_depth {
            Some(depth) => depth <= counted_bags@.len() || (start_state matches Some(start)
                && start.0 >= depth),
            None => true,
        },
    ensures
        orders_of(r@) == permutations(
            counted_bags@,
            match start_state {
                Some(start) => start.1,
                None => QueueState(counted_bags@[0].1.full),
            },
            match start_state {
                Some(start) => start.0 as nat,
                None => 0,
            },
            match max_depth {
                Some(depth) => depth as nat,
                None => counted_bags@.len(),
            },
        ),
{
    let mut queue: VecDeque<Shape> = VecDeque::new();
    let mut permutations: Vec<VecDeque<Shape>> = Vec::new();
    let max_depth = match max_depth {
        Some(depth) => depth,
        None => counted_bags.len(),
    };
    let ghost expected = self::permutations(
        counted_bags@,
        match start_state {
            Some(start) => start.1,
            None => QueueState(counted_bags@[0].1.full),
        },
        match start_state {
            Some(start) => start.0 as nat,
            None => 0,
        },
        max_depth as nat,
    );
    match start_state {
        Some((start_depth, queue_state)) => {
            recursive_permute_bags(
                counted_bags,
                &mut permutations,
                start_depth,
                max_depth,
                queue_state,
                &mut queue,
            );
        },
        None => {
            let queue_state = QueueState(counted_bags[0].1.full);
            recursive_permute_bags(
                counted_bags,
                &mut permutations,
                0,
                max_depth,
                queue_state,
                &mut queue,
            );
        },
    }
    proof {
        let l = with_prefix(Seq::<Shape>::empty(), expected);
        assert forall|j: int| 0 <= j < l.len() implies l[j] == expected[j] by {
            assert(Seq::<Shape>::empty() + expected[j] =~= expected[j]);
        }
        assert(l =~= expected);
        assert(orders_of(Seq::<VecDeque<Shape>>::empty()) =~= Seq::<Seq<Shape>>::empty());
        assert(Seq::<Seq<Shape>>::empty() + l =~= l);
    }
    permutations
}

} // verus!
