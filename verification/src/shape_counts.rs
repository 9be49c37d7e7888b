//! How often each shape occurs in a list, kept in a hash map.

use vstd::prelude::*;
use crate::shape::{lemma_shape_at, lemma_shape_index, Shape};

verus! {

/// A count for each shape that occurs. It is a `hashbrown::HashMap` from the
/// shape's index to the count, which is reached only through the methods
/// below.
#[verifier::external_body]
pub struct ShapeCounts {
    inner: hashbrown::HashMap<u8, usize>,
}

/// The entries that a [`ShapeCounts`] holds.
pub uninterp spec fn shape_counts_contents(m: ShapeCounts) -> Map<u8, usize>;

/// The map without entries.
pub open spec fn no_counts() -> Map<u8, usize> {
    Map::empty()
}

/// How often `shape` occurs in `shapes`.
pub open spec fn occurrences(shapes: Seq<Shape>, shape: Shape) -> nat
    decreases shapes.len(),
{
    if shapes.len() == 0 {
        0
    } else {
        occurrences(shapes.drop_last(), shape) + if shapes.last() == shape {
            1nat
        } else {
            0nat
        }
    }
}

/// No shape occurs more often than the list is long.
pub proof fn lemma_occurrences_bound(shapes: Seq<Shape>, shape: Shape)
    ensures
        occurrences(shapes, shape) <= shapes.len(),
        occurrences(shapes, shape) > 0 <==> shapes.contains(shape),
    decreases shapes.len(),
{
    if shapes.len() > 0 {
        let rest = shapes.drop_last();
        lemma_occurrences_bound(rest, shape);
        if shapes.last() == shape {
            assert(shapes[shapes.len() - 1] == shape);
        } else {
            if shapes.contains(shape) {
                let i = choose|i: int| 0 <= i < shapes.len() && shapes[i] == shape;
                assert(rest[i] == shape);
            }
        }
        if rest.contains(shape) {
            let i = choose|i: int| 0 <= i < rest.len() && rest[i] == shape;
            assert(shapes[i] == shape);
        }
    }
}

impl ShapeCounts {
    /// The counts hold, for each shape that occurs in `shapes`, how often
    /// it occurs, and nothing for the other shapes.
    pub open spec fn counts(&self, shapes: Seq<Shape>) -> bool {
        forall|k: u8| #![trigger shape_counts_contents(*self).contains_key(k)]
            {
                &&& shape_counts_contents(*self).contains_key(k) <==> k < 7 && occurrences(
                    shapes,
                    Shape::at(k as int),
                ) > 0
                &&& shape_counts_contents(*self).contains_key(k) ==> shape_counts_contents(
                    *self,
                )[k] == occurrences(shapes, Shape::at(k as int))
            }
    }

    /// Calls `hashbrown::HashMap::with_capacity`, which gives a map without
    /// entries.
    #[verifier::external_body]
    fn raw_with_capacity(capacity: usize) -> (r: ShapeCounts)
        requires
            capacity <= 64,
        ensures
            shape_counts_contents(r) == no_counts(),
    {
        ShapeCounts { inner: hashbrown::HashMap::with_capacity(capacity) }
    }

    /// Calls `hashbrown::HashMap::get`, which gives the value stored for the
    /// key, if there is one.
    #[verifier::external_body]
    fn raw_get(&self, key: u8) -> (r: Option<usize>)
        ensures
            r == (if shape_counts_contents(*self).contains_key(key) {
                Some(shape_counts_contents(*self)[key])
            } else {
                None
            }),
    {
        self.inner.get(&key).copied()
    }

    /// Calls `hashbrown::HashMap::insert`, which stores the value for the
    /// key and gives back the value that was stored for it before.
    #[verifier::external_body]
    fn raw_insert(&mut self, key: u8, value: usize) -> (r: Option<usize>)
        ensures
            shape_counts_contents(*final(self)) == shape_counts_contents(*old(self)).insert(
                key,
                value,
            ),
            r == (if shape_counts_contents(*old(self)).contains_key(key) {
                Some(shape_counts_contents(*old(self))[key])
            } else {
                None
            }),
    {
        self.inner.insert(key, value)
    }

    /// How often `shape` was counted; 0 for a shape without an entry.
    pub fn get(&self, shape: Shape) -> (r: usize)
        ensures
            r == (if shape_counts_contents(*self).contains_key(shape.spec_index() as u8) {
                shape_counts_contents(*self)[shape.spec_index() as u8]
            } else {
                0
            }),
    {
        match self.raw_get(shape.index() as u8) {
            Some(count) => count,
            None => 0,
        }
    }
}

/// Counts how often each shape occurs in `list`.
pub fn shape_set_from_list(list: &[Shape]) -> (shape_set: ShapeCounts)
    ensures
        shape_set.counts(list@),
{
    let mut shape_set = ShapeCounts::raw_with_capacity(7);
    let mut i: usize = 0;
    while i < list.len()
        invariant
            i <= list.len(),
            shape_set.counts(list@.take(i as int)),
        decreases list.len() - i,
    {
        let shape = list[i];
        let key = shape.index() as u8;
        let ghost before = shape_counts_contents(shape_set);
        let ghost done = list@.take(i as int);
        let ghost more = list@.take(i + 1);
        proof {
            assert(more.drop_last() =~= done);
            assert(more.last() == shape);
            lemma_shape_index(shape);
            lemma_occurrences_bound(done, shape);
            assert(before.contains_key(key) ==> before[key] == occurrences(done, shape));
        }
        match shape_set.raw_get(key) {
            Some(count) => {
                shape_set.raw_insert(key, count + 1);
            },
            None => {
                shape_set.raw_insert(key, 1);
            },
        }
        proof {
            assert forall|k: u8| #![trigger shape_counts_contents(shape_set).contains_key(k)]
                {
                    &&& shape_counts_contents(shape_set).contains_key(k) <==> k < 7 && occurrences(
                        more,
                        Shape::at(k as int),
                    ) > 0
                    &&& shape_counts_contents(shape_set).contains_key(k) ==> shape_counts_contents(
                        shape_set,
                    )[k] == occurrences(more, Shape::at(k as int))
                } by {
                assert(before.contains_key(k) <==> k < 7 && occurrences(done, Shape::at(k as int))
                    > 0);
                if k < 7 {
                    lemma_shape_at(k as int);
                }
            }
        }
        i = i + 1;
    }
    assert(list@.take(list@.len() as int) =~= list@);
    shape_set
}

} // verus!
