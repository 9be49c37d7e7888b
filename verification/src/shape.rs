//! The seven piece kinds.

use vstd::prelude::*;

verus! {

/// One of the seven piece kinds, in the order used as an index everywhere.
#[derive(Clone, Copy, Debug, PartialEq, Eq, Structural, Hash, PartialOrd, Ord)]
pub enum Shape {
    I,
    J,
    L,
    O,
    S,
    T,
    Z,
}

/// How many piece kinds there are.
pub const SHAPE_COUNT: usize = 7;

impl Shape {
    /// The position of this shape in the canonical order.
    pub open spec fn spec_index(self) -> nat {
        match self {
            Shape::I => 0,
            Shape::J => 1,
            Shape::L => 2,
            Shape::O => 3,
            Shape::S => 4,
            Shape::T => 5,
            Shape::Z => 6,
        }
    }

    /// The shape at a position of the canonical order, if there is one.
    pub open spec fn spec_from_index(i: int) -> Option<Shape> {
        if i == 0 {
            Some(Shape::I)
        } else if i == 1 {
            Some(Shape::J)
        } else if i == 2 {
            Some(Shape::L)
        } else if i == 3 {
            Some(Shape::O)
        } else if i == 4 {
            Some(Shape::S)
        } else if i == 5 {
            Some(Shape::T)
        } else if i == 6 {
            Some(Shape::Z)
        } else {
            None
        }
    }

    /// The shape at position `i`, for `i` below seven.
    pub open spec fn at(i: int) -> Shape {
        match Shape::spec_from_index(i) {
            Some(s) => s,
            None => Shape::I,
        }
    }

    /// The letter that names this shape.
    pub open spec fn spec_name(self) -> char {
        match self {
            Shape::I => 'I',
            Shape::J => 'J',
            Shape::L => 'L',
            Shape::O => 'O',
            Shape::S => 'S',
            Shape::T => 'T',
            Shape::Z => 'Z',
        }
    }

    /// The shape that a letter names, if it names one.
    pub open spec fn spec_from_name(c: char) -> Option<Shape> {
        if c == 'I' {
            Some(Shape::I)
        } else if c == 'J' {
            Some(Shape::J)
        } else if c == 'L' {
            Some(Shape::L)
        } else if c == 'O' {
            Some(Shape::O)
        } else if c == 'S' {
            Some(Shape::S)
        } else if c == 'T' {
            Some(Shape::T)
        } else if c == 'Z' {
            Some(Shape::Z)
        } else {
            None
        }
    }

    /// All seven shapes in canonical order.
    pub open spec fn spec_all() -> Seq<Shape> {
        seq![Shape::I, Shape::J, Shape::L, Shape::O, Shape::S, Shape::T, Shape::Z]
    }

    /// All seven shapes in canonical order.
    pub fn all() -> (r: [Shape; 7])
        ensures
            r@ == Shape::spec_all(),
            forall|i: int| 0 <= i < 7 ==> r@[i] == Shape::at(i),
    {
        let r = [Shape::I, Shape::J, Shape::L, Shape::O, Shape::S, Shape::T, Shape::Z];
        assert(r@ =~= Shape::spec_all());
        r
    }

    /// The position of this shape in the canonical order.
    pub fn index(self) -> (r: usize)
        ensures
            r == self.spec_index(),
            r < 7,
    {
        match self {
            Shape::I => 0,
            Shape::J => 1,
            Shape::L => 2,
            Shape::O => 3,
            Shape::S => 4,
            Shape::T => 5,
            Shape::Z => 6,
        }
    }

    /// The shape at position `i` of the canonical order; `None` from seven on.
    pub fn from_index(i: usize) -> (r: Option<Shape>)
        ensures
            r == Shape::spec_from_index(i as int),
            i < 7 ==> r == Some(Shape::at(i as int)),
    {
        if i == 0 {
            Some(Shape::I)
        } else if i == 1 {
            Some(Shape::J)
        } else if i == 2 {
            Some(Shape::L)
        } else if i == 3 {
            Some(Shape::O)
        } else if i == 4 {
            Some(Shape::S)
        } else if i == 5 {
            Some(Shape::T)
        } else if i == 6 {
            Some(Shape::Z)
        } else {
            None
        }
    }

    /// The letter that names this shape.
    pub fn name(self) -> (r: char)
        ensures
            r == self.spec_name(),
    {
        match self {
            Shape::I => 'I',
            Shape::J => 'J',
            Shape::L => 'L',
            Shape::O => 'O',
            Shape::S => 'S',
            Shape::T => 'T',
            Shape::Z => 'Z',
        }
    }

    /// The shape that a letter names; `None` for every other character.
    pub fn from_name(c: char) -> (r: Option<Shape>)
        ensures
            r == Shape::spec_from_name(c),
    {
        if c == 'I' {
            Some(Shape::I)
        } else if c == 'J' {
            Some(Shape::J)
        } else if c == 'L' {
            Some(Shape::L)
        } else if c == 'O' {
            Some(Shape::O)
        } else if c == 'S' {
            Some(Shape::S)
        } else if c == 'T' {
            Some(Shape::T)
        } else if c == 'Z' {
            Some(Shape::Z)
        } else {
            None
        }
    }
}

/// Index and shape determine each other.
pub proof fn lemma_shape_index(s: Shape)
    ensures
        s.spec_index() < 7,
        Shape::at(s.spec_index() as int) == s,
        Shape::spec_from_index(s.spec_index() as int) == Some(s),
        Shape::spec_from_name(s.spec_name()) == Some(s),
{
}

/// Every position below seven holds a shape with that index.
pub proof fn lemma_shape_at(i: int)
    requires
        0 <= i < 7,
    ensures
        Shape::at(i).spec_index() == i,
        Shape::spec_from_index(i) == Some(Shape::at(i)),
{
}

} // verus!
