//! A set of boards, kept in a hash set.

use vstd::prelude::*;
use crate::board::Board;

verus! {

/// A set of boards. It is a `hashbrown::HashSet` of the boards' masks, which
/// is reached only through the methods below.
#[verifier::external_body]
pub struct BoardSet {
    inner: hashbrown::HashSet<u64>,
}

/// The masks that a [`BoardSet`] holds.
pub uninterp spec fn board_set_contents(s: BoardSet) -> Set<u64>;

impl View for BoardSet {
    type V = Set<Board>;

    /// The boards in the set.
    open spec fn view(&self) -> Set<Board> {
        Set::new(|b: Board| board_set_contents(*self).contains(b.0))
    }
}

impl BoardSet {
    /// Calls `hashbrown::HashSet::new`, which gives a set that holds nothing.
    #[verifier::external_body]
    fn raw_new() -> (r: BoardSet)
        ensures
            board_set_contents(r) == Set::<u64>::empty(),
    {
        BoardSet { inner: hashbrown::HashSet::new() }
    }

    /// Calls `hashbrown::HashSet::insert`, which adds the value to the set
    /// and says whether it was not there before.
    #[verifier::external_body]
    fn raw_insert(&mut self, mask: u64) -> (r: bool)
        ensures
            board_set_contents(*final(self)) == board_set_contents(*old(self)).insert(mask),
            r == !board_set_contents(*old(self)).contains(mask),
    {
        self.inner.insert(mask)
    }

    /// Calls `hashbrown::HashSet::contains`, which says whether the value is
    /// in the set.
    #[verifier::external_body]
    fn raw_contains(&self, mask: u64) -> (r: bool)
        ensures
            r == board_set_contents(*self).contains(mask),
    {
        self.inner.contains(&mask)
    }

    /// Calls `hashbrown::HashSet::len`, which gives the number of values in
    /// the set.
    #[verifier::external_body]
    fn raw_len(&self) -> (r: usize)
        ensures
            r == board_set_contents(*self).len(),
    {
        self.inner.len()
    }

    /// The set without boards.
    pub fn new() -> (r: BoardSet)
        ensures
            r@ == Set::<Board>::empty(),
    {
        let r = BoardSet::raw_new();
        assert(r@ =~= Set::<Board>::empty());
        r
    }

    /// Adds `board`; says whether it was not in the set before.
    pub fn insert(&mut self, board: Board) -> (r: bool)
        ensures
            final(self)@ == old(self)@.insert(board),
            r == !old(self)@.contains(board),
    {
        let r = self.raw_insert(board.0);
        assert(self@ =~= old(self)@.insert(board));
        r
    }

    /// Whether `board` is in the set.
    pub fn contains(&self, board: Board) -> (r: bool)
        ensures
            r == self@.contains(board),
    {
        self.raw_contains(board.0)
    }

    /// The number of masks in the set.
    pub fn len(&self) -> (r: usize)
        ensures
            r == board_set_contents(*self).len(),
    {
        self.raw_len()
    }
}

} // verus!
