//! A map from boards to values that remembers the order of insertion.

use vstd::prelude::*;
use std::collections::HashMap;
use crate::board::Board;

verus! {

/// A map keyed by boards. The entries stand in the order in which their keys
/// were first inserted; a hash index finds the position of a key.
pub struct BoardMap<V> {
    keys: Vec<u64>,
    values: Vec<V>,
    index: HashMap<u64, usize>,
}

impl<V> BoardMap<V> {
    /// The index agrees with the list of keys, so no key stands twice.
    pub closed spec fn wf(&self) -> bool {
        &&& self.keys@.len() == self.values@.len()
        &&& forall|k: u64| #[trigger]
            self.index@.contains_key(k) ==> self.index@[k] < self.keys@.len() && self.keys@[self.index@[k] as int]
                == k
        &&& forall|i: int|
            0 <= i < self.keys@.len() ==> self.index@.contains_key(#[trigger] self.keys@[i])
                && self.index@[self.keys@[i]] == i
    }

    /// The keys in order of insertion.
    pub closed spec fn keys(&self) -> Seq<Board> {
        self.keys@.map_values(|k: u64| Board(k))
    }

    /// The values, each at the position of its key.
    pub closed spec fn values(&self) -> Seq<V> {
        self.values@
    }

    /// Whether `board` is a key.
    pub open spec fn has(&self, board: Board) -> bool {
        self.keys().contains(board)
    }

    /// The position of `board` among the keys.
    pub open spec fn position_of(&self, board: Board) -> int {
        self.keys().index_of(board)
    }

    /// The value stored for `board`.
    pub open spec fn value_of(&self, board: Board) -> V {
        self.values()[self.position_of(board)]
    }

    /// A well-formed map holds a value for each key, and each key once.
    pub proof fn lemma_wf(&self)
        requires
            self.wf(),
        ensures
            self.keys().len() == self.values().len(),
            self.keys().no_duplicates(),
            forall|i: int|
                0 <= i < self.keys().len() ==> self.position_of(#[trigger] self.keys()[i]) == i,
    {
        let ks = self.keys();
        assert forall|i: int, j: int| 0 <= i < ks.len() && 0 <= j < ks.len() && i != j implies ks[i]
            != ks[j] by {
            assert(self.index@[self.keys@[i]] == i);
            assert(self.index@[self.keys@[j]] == j);
        }
        assert forall|i: int| 0 <= i < ks.len() implies self.position_of(#[trigger] ks[i]) == i by {
            ks.index_of_first_ensures(ks[i]);
            let p = ks.index_of(ks[i]);
            assert(ks.contains(ks[i]));
            assert(0 <= p < ks.len() && ks[p] == ks[i]);
        }
    }

    /// A map holds no more entries than a `usize` counts.
    pub proof fn lemma_len_fits(&self)
        requires
            self.wf(),
        ensures
            self.keys().len() <= usize::MAX,
    {
        broadcast use vstd::std_specs::vec::axiom_spec_len;

        assert(self.keys@.len() == vstd::std_specs::vec::spec_vec_len(&self.keys));
    }

    /// The map without entries.
    pub fn new() -> (r: Self)
        ensures
            r.wf(),
            r.keys() == Seq::<Board>::empty(),
            r.values() == Seq::<V>::empty(),
    {
        broadcast use vstd::std_specs::hash::group_hash_axioms;

        let r = BoardMap { keys: Vec::new(), values: Vec::new(), index: HashMap::new() };
        assert(r.keys() =~= Seq::<Board>::empty());
        r
    }

    /// The number of entries.
    pub fn len(&self) -> (r: usize)
        requires
            self.wf(),
        ensures
            r == self.keys().len(),
            r == self.values().len(),
    {
        self.keys.len()
    }

    /// The position of `board` among the keys; `None` where it is no key.
    pub fn position(&self, board: Board) -> (r: Option<usize>)
        requires
            self.wf(),
        ensures
            match r {
                Some(i) => i < self.keys().len() && self.keys()[i as int] == board
                    && self.position_of(board) == i && self.has(board),
                None => !self.has(board),
            },
    {
        broadcast use vstd::std_specs::hash::group_hash_axioms;

        proof {
            self.lemma_wf();
        }
        match self.index.get(&board.0) {
            Some(i) => {
                assert(self.keys()[*i as int] == board);
                Some(*i)
            },
            None => {
                assert forall|i: int| 0 <= i < self.keys().len() implies self.keys()[i] != board by {
                    assert(self.index@.contains_key(self.keys@[i]));
                }
                None
            },
        }
    }

    /// Whether `board` is a key.
    pub fn contains(&self, board: Board) -> (r: bool)
        requires
            self.wf(),
        ensures
            r == self.has(board),
    {
        self.position(board).is_some()
    }

    /// The key at position `i`.
    pub fn key_at(&self, i: usize) -> (r: Board)
        requires
            self.wf(),
            i < self.keys().len(),
        ensures
            r == self.keys()[i as int],
    {
        Board(self.keys[i])
    }

    /// The value at position `i`.
    pub fn value_at(&self, i: usize) -> (r: &V)
        requires
            self.wf(),
            i < self.keys().len(),
        ensures
            *r == self.values()[i as int],
    {
        &self.values[i]
    }

    /// The value stored for `board`; `None` where it is no key.
    pub fn get(&self, board: Board) -> (r: Option<&V>)
        requires
            self.wf(),
        ensures
            match r {
                Some(v) => self.has(board) && *v == self.value_of(board),
                None => !self.has(board),
            },
    {
        match self.position(board) {
            Some(i) => Some(&self.values[i]),
            None => None,
        }
    }

    /// The value at position `i`, to be changed in place.
    pub fn value_at_mut(&mut self, i: usize) -> (r: &mut V)
        requires
            old(self).wf(),
            i < old(self).keys().len(),
        ensures
            *r == old(self).values()[i as int],
            final(self).wf(),
            final(self).keys() == old(self).keys(),
            final(self).values() == old(self).values().update(i as int, *final(r)),
    {
        &mut self.values[i]
    }

    /// Adds an entry for a board that is no key yet, and gives its position.
    pub fn push(&mut self, board: Board, value: V) -> (r: usize)
        requires
            old(self).wf(),
            !old(self).has(board),
        ensures
            final(self).wf(),
            r == old(self).keys().len(),
            final(self).keys() == old(self).keys().push(board),
            final(self).values() == old(self).values().push(value),
    {
        broadcast use vstd::std_specs::hash::group_hash_axioms;

        let at = self.keys.len();
        proof {
            if self.index@.contains_key(board.0) {
                let p = self.index@[board.0] as int;
                assert(self.keys()[p] == board);
            }
        }
        self.keys.push(board.0);
        self.values.push(value);
        self.index.insert(board.0, at);
        assert(self.keys() =~= old(self).keys().push(board));
        at
    }

    /// Stores `value` for `board`, in place of what was stored for it, or as
    /// a new last entry.
    pub fn insert(&mut self, board: Board, value: V)
        requires
            old(self).wf(),
        ensures
            final(self).wf(),
            old(self).has(board) ==> final(self).keys() == old(self).keys() && final(self).values()
                == old(self).values().update(old(self).position_of(board), value),
            !old(self).has(board) ==> final(self).keys() == old(self).keys().push(board)
                && final(self).values() == old(self).values().push(value),
    {
        match self.position(board) {
            Some(i) => {
                let slot = self.value_at_mut(i);
                *slot = value;
            },
            None => {
                self.push(board, value);
            },
        }
    }
}

} // verus!
