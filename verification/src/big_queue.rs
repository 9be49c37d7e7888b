//! A short sequence of pieces packed into one integer, three bits a piece.

use vstd::prelude::*;
use crate::combinatoric::names;
use crate::shape::Shape;
use crate::text::push_char;

verus! {

/// A sequence of pieces. Each piece takes three bits, the first piece the
/// lowest three: a shape is stored as its index plus one, and the sequence
/// ends at the first group of three bits that is zero.
#[derive(Clone, Copy, Debug, Default, PartialEq, Eq, Structural, Hash, PartialOrd, Ord)]
pub struct Queue(pub u64);

/// The most pieces that can be read from a queue.
pub const MAX_PIECES: usize = 22;

/// The bits that stand for a shape.
pub open spec fn shape_code(shape: Shape) -> u64 {
    (shape.spec_index() + 1) as u64
}

/// The first pieces of the packed sequence `x`, `n` at most.
pub open spec fn take_pieces(x: u64, n: nat) -> Seq<Shape>
    decreases n,
{
    if n == 0 || x & 7 == 0 {
        Seq::empty()
    } else {
        seq![Shape::at((x & 7) - 1)] + take_pieces(x >> 3, (n - 1) as nat)
    }
}

/// The natural key of a queue: the ten lowest groups of three bits in
/// reverse order, so that the first piece weighs most.
pub open spec fn natural_key(x: u64) -> u64 {
    let hgfedcba = x & 0o77777777;
    let dcbahgfe = (hgfedcba << 12 & 0o77770000) | (hgfedcba >> 12);
    let badcfehg = (dcbahgfe << 6 & 0o77007700) | (dcbahgfe >> 6 & 0o00770077);
    let badcfehgji = badcfehg << 6 | x >> 24;
    (badcfehgji << 3 & 0o7070707070) | (badcfehgji >> 3 & 0o0707070707)
}

/// Group `i` of three bits of `x`.
pub open spec fn group(x: u64, i: u64) -> u64 {
    (x >> (3 * i)) & 7
}

/// The key of a queue of ten pieces at most holds its groups in reverse
/// order.
pub proof fn lemma_natural_key_reverses(x: u64, i: u64)
    requires
        x < 0x4000_0000,
        i < 10,
    ensures
        natural_key(x) < 0x4000_0000,
        group(natural_key(x), i) == group(x, (9 - i) as u64),
{
    assert(x < 0x4000_0000 && i < 10 ==> natural_key(x) < 0x4000_0000 && (natural_key(x) >> (3
        * i)) & 7 == (x >> (3 * ((9 - i) as u64))) & 7) by (bit_vector);
}

/// Where no bit stands above the first `n` groups, no piece is read beyond
/// them.
pub proof fn lemma_take_enough(x: u64, n: nat)
    requires
        n <= 21,
        x >> ((3 * n) as u64) == 0,
    ensures
        take_pieces(x, n) == take_pieces(x, n + 1),
    decreases n,
{
    let s = (3 * n) as u64;
    if n == 0 {
        assert(x >> 0u64 == 0 ==> x & 7 == 0) by (bit_vector);
    } else if x & 7 != 0 {
        let t = (3 * (n - 1)) as u64;
        assert(s <= 63 && t == s - 3 && x >> s == 0 ==> (x >> 3) >> t == 0) by (bit_vector);
        lemma_take_enough(x >> 3, (n - 1) as nat);
    }
}

/// As long as no bit is lost, the piece pushed first is read first, and the
/// others after it.
pub proof fn lemma_push_first(x: u64, shape: Shape, n: nat)
    requires
        x < 0x2000_0000_0000_0000,
    ensures
        take_pieces(shape_code(shape) | (x << 3), n + 1) == seq![shape] + take_pieces(x, n),
{
    let c = shape_code(shape);
    crate::shape::lemma_shape_index(shape);
    assert(1 <= c <= 7 && x < 0x2000_0000_0000_0000 ==> (c | (x << 3)) & 7 == c && (c | (x << 3))
        >> 3 == x) by (bit_vector);
}

/// The bits of a queue with `shape` pushed into the group above its highest
/// set bit.
pub open spec fn last_bits(x: u64, shape: Shape) -> u64 {
    x | (shape_code(shape) << ((3 * ((64 - vstd::std_specs::bits::u64_leading_zeros(x) + 2) / 3)) as u64))
}

/// The bits of a queue after the shapes of `shapes` were pushed onto its
/// end one by one, up to the tenth group.
pub open spec fn extended(x: u64, shapes: Seq<Shape>) -> u64
    decreases shapes.len(),
{
    if shapes.len() == 0 || (64 - vstd::std_specs::bits::u64_leading_zeros(x) + 2) / 3 == 10 {
        x
    } else {
        extended(last_bits(x, shapes[0]), shapes.skip(1))
    }
}

/// A number below a power of two has the leading zeros above that power.
pub proof fn lemma_leading_zeros(x: u64, bits: u64)
    requires
        bits < 64,
        x >> bits == 0,
    ensures
        vstd::std_specs::bits::u64_leading_zeros(x) >= 64 - bits,
{
    broadcast use vstd::std_specs::bits::axiom_u64_leading_zeros;

    let lz = vstd::std_specs::bits::u64_leading_zeros(x);
    if lz < 64 - bits {
        let s = (63 - lz) as u64;
        assert(x >> bits == 0 && bits <= s < 64 ==> (x >> s) & 1 == 0) by (bit_vector);
    }
}

impl View for Queue {
    type V = Seq<Shape>;

    /// The pieces of the queue, the first one first.
    open spec fn view(&self) -> Seq<Shape> {
        take_pieces(self.0, 22)
    }
}

impl Queue {
    /// An empty queue.
    pub fn empty() -> (r: Queue)
        ensures
            r.0 == 0,
            r@ == Seq::<Shape>::empty(),
    {
        assert(0u64 & 7 == 0) by (bit_vector);
        Queue(0)
    }

    /// Whether no bit is set. A queue without set bits holds no piece.
    pub fn is_empty(self) -> (r: bool)
        ensures
            r == (self.0 == 0),
            r ==> self@ == Seq::<Shape>::empty(),
    {
        assert(0u64 & 7 == 0) by (bit_vector);
        self.0 == 0
    }

    /// Pushes a shape onto the front of this queue. The given shape is now
    /// first; the pieces that were there follow, as far as they fit.
    #[must_use]
    pub fn push_first(self, shape: Shape) -> (r: Queue)
        ensures
            r.0 == shape_code(shape) | (self.0 << 3),
            r.0 != 0,
            self.0 < 0x2000_0000_0000_0000 ==> r@ == seq![shape] + self@,
    {
        let new = (shape.index() as u64) + 1;
        let rest = self.0 << 3;
        proof {
            if self.0 < 0x2000_0000_0000_0000 {
                let x = self.0;
                lemma_push_first(x, shape, 21);
                assert(x < 0x2000_0000_0000_0000 ==> x >> 63 == 0) by (bit_vector);
                lemma_take_enough(x, 21);
            }
            assert(1 <= new <= 7 ==> (new | rest) != 0) by (bit_vector);
        }
        Queue(new | rest)
    }

    /// Pushes a shape as the second into this queue, which must hold a
    /// piece. The first piece stays first, the given shape is now second.
    #[must_use]
    pub fn push_second(self, shape: Shape) -> (r: Queue)
        requires
            self.0 != 0,
        ensures
            r.0 == (self.0 & 7) | (shape_code(shape) << 3) | ((self.0 & !7u64) << 3),
            r.0 != 0,
    {
        let first = self.0 & 0b111;
        let new = ((shape.index() as u64) + 1) << 3;
        let rest = (self.0 & !0b111) << 3;
        proof {
            let c = shape_code(shape);
            assert(1 <= c <= 7 && new == c << 3 ==> (first | new | rest) != 0) by (bit_vector);
        }
        Queue(first | new | rest)
    }

    /// The number of groups of three bits up to the highest set bit.
    pub fn len(self) -> (r: u32)
        ensures
            r == (64 - vstd::std_specs::bits::u64_leading_zeros(self.0) + 2) / 3,
            r <= 22,
            r == 0 <==> self.0 == 0,
    {
        broadcast use vstd::std_specs::bits::axiom_u64_leading_zeros;

        let highest_one = 64 - self.0.leading_zeros();
        (highest_one + 2) / 3
    }

    /// Pushes a shape onto the end of this queue, into the group above the
    /// highest set bit. The highest bit of the queue must be free.
    #[must_use]
    pub fn push_last(self, shape: Shape) -> (r: Queue)
        requires
            self.0 < 0x8000_0000_0000_0000,
        ensures
            r.0 == last_bits(self.0, shape),
    {
        broadcast use vstd::std_specs::bits::axiom_u64_leading_zeros;

        proof {
            let x = self.0;
            assert(x < 0x8000_0000_0000_0000 ==> x >> 63 == 0) by (bit_vector);
            lemma_leading_zeros(x, 63);
        }
        let next_slot = self.len() * 3;
        let new = ((shape.index() as u64) + 1) << next_slot;
        Queue(self.0 | new)
    }

    /// Takes the first piece off the queue; `None` where it holds none.
    pub fn next(&mut self) -> (r: Option<Shape>)
        ensures
            final(self).0 == old(self).0 >> 3,
            r == (if old(self).0 & 7 == 0 {
                None
            } else {
                Some(Shape::at((old(self).0 & 7) - 1))
            }),
            r matches Some(shape) ==> old(self)@ == seq![shape] + final(self)@,
            r matches Some(shape) ==> old(self)@ == seq![shape] + take_pieces(final(self).0, 21),
            r is None ==> old(self)@ == Seq::<Shape>::empty(),
    {
        let x = self.0;
        proof {
            let y = x >> 3;
            assert(y == x >> 3 ==> y >> 63 == 0) by (bit_vector);
            lemma_take_enough(y, 21);
        }
        let code = x & 0b111;
        assert(code < 8) by (bit_vector)
            requires
                code == x & 7,
        ;
        let first = if code == 0 {
            None
        } else {
            Shape::from_index((code - 1) as usize)
        };
        self.0 = self.0 >> 3;
        first
    }

    /// The names of the shapes in this queue.
    pub fn to_string(self) -> (r: String)
        ensures
            r@ == names(self@),
    {
        let mut s = String::new();
        let mut rest = self;
        let mut k: usize = 0;
        assert(s@ + names(take_pieces(rest.0, 22)) =~= names(self@));
        while k < 22
            invariant
                k <= 22,
                s@ + names(take_pieces(rest.0, (22 - k) as nat)) == names(self@),
            decreases 22 - k,
        {
            let ghost before = rest.0;
            let ghost text = s@;
            match rest.next() {
                Some(shape) => {
                    push_char(&mut s, shape.name());
                    proof {
                        let tail = take_pieces(rest.0, (21 - k) as nat);
                        assert(take_pieces(before, (22 - k) as nat) == seq![shape] + tail);
                        assert(names(seq![shape] + tail) =~= seq![shape.spec_name()] + names(tail));
                        assert(s@ + names(tail) =~= text + names(seq![shape] + tail));
                    }
                },
                None => {
                    proof {
                        assert(take_pieces(before, (22 - k) as nat) =~= Seq::<Shape>::empty());
                        assert(names(Seq::<Shape>::empty()) =~= Seq::<char>::empty());
                        assert(s@ + Seq::<char>::empty() =~= s@);
                    }
                    return s;
                },
            }
            k = k + 1;
        }
        assert(s@ + Seq::<char>::empty() =~= s@);
        assert(names(Seq::<Shape>::empty()) =~= Seq::<char>::empty());
        s
    }

    /// The queue as text: the names of its shapes in square brackets.
    pub fn display(self) -> (r: String)
        ensures
            r@ == seq!['['] + names(self@) + seq![']'],
    {
        let mut s = String::new();
        push_char(&mut s, '[');
        let mut rest = self;
        let mut k: usize = 0;
        assert(names(Seq::<Shape>::empty()) =~= Seq::<char>::empty());
        assert(s@ =~= seq!['['] + names(Seq::<Shape>::empty()));
        assert(s@ + names(take_pieces(rest.0, 22)) =~= seq!['['] + names(self@));
        while k < 22
            invariant
                k <= 22,
                s@ + names(take_pieces(rest.0, (22 - k) as nat)) == seq!['['] + names(self@),
            decreases 22 - k,
        {
            let ghost before = rest.0;
            let ghost text = s@;
            match rest.next() {
                Some(shape) => {
                    push_char(&mut s, shape.name());
                    proof {
                        let tail = take_pieces(rest.0, (21 - k) as nat);
                        assert(take_pieces(before, (22 - k) as nat) == seq![shape] + tail);
                        assert(names(seq![shape] + tail) =~= seq![shape.spec_name()] + names(tail));
                        assert(s@ + names(tail) =~= text + names(seq![shape] + tail));
                    }
                },
                None => {
                    proof {
                        assert(take_pieces(before, (22 - k) as nat) =~= Seq::<Shape>::empty());
                        assert(s@ + Seq::<char>::empty() =~= s@);
                    }
                    push_char(&mut s, ']');
                    return s;
                },
            }
            k = k + 1;
        }
        assert(s@ + Seq::<char>::empty() =~= s@);
        push_char(&mut s, ']');
        s
    }

    /// The natural key of the queue: its ten lowest groups of three bits in
    /// reverse order, so that the first piece weighs most.
    pub fn natural_order_key(self) -> (r: u64)
        ensures
            r == natural_key(self.0),
            r < 0x4000_0000,
    {
        let jihgfedcba = self.0;
        let hgfedcba = jihgfedcba & 0o77777777;
        let dcba____ = hgfedcba << 12 & 0o77770000;
        let ____hgfe = hgfedcba >> 12;
        let dcbahgfe = dcba____ | ____hgfe;
        let ba__fe__ = dcbahgfe << 6 & 0o77007700;
        let __dc__hg = dcbahgfe >> 6 & 0o00770077;
        let badcfehg = ba__fe__ | __dc__hg;
        let badcfehgji = badcfehg << 6 | jihgfedcba >> 24;
        let a_c_e_g_i_ = badcfehgji << 3 & 0o7070707070;
        let _b_d_f_h_j = badcfehgji >> 3 & 0o0707070707;
        let abcdefghij = a_c_e_g_i_ | _b_d_f_h_j;
        assert(natural_key(jihgfedcba) < 0x4000_0000) by (bit_vector);
        abcdefghij
    }

    /// The queue with its ten lowest groups in reverse order, the empty
    /// groups taken off its front.
    #[must_use]
    pub fn reverse(self) -> (r: Queue)
        ensures
            r.0 == natural_key(self.0) >> ((vstd::std_specs::bits::u64_trailing_zeros(
                natural_key(self.0),
            ) / 3 * 3) as u64),
    {
        broadcast use vstd::std_specs::bits::axiom_u64_trailing_zeros;

        let x = self.natural_order_key();
        Queue(x >> (x.trailing_zeros() / 3 * 3))
    }

    /// Pushes the shapes of `shapes` onto the end of the queue one by one,
    /// and stops when the queue has ten groups.
    pub fn extend(&mut self, shapes: &[Shape])
        requires
            old(self).0 < 0x4000_0000,
        ensures
            final(self).0 == extended(old(self).0, shapes@),
            final(self).0 < 0x4000_0000,
    {
        broadcast use vstd::std_specs::bits::axiom_u64_leading_zeros;

        let mut i: usize = 0;
        assert(shapes@.skip(0) =~= shapes@);
        while i < shapes.len()
            invariant
                i <= shapes.len(),
                self.0 < 0x4000_0000,
                extended(self.0, shapes@.skip(i as int)) == extended(old(self).0, shapes@),
            decreases shapes.len() - i,
        {
            proof {
                let x = self.0;
                assert(x < 0x4000_0000 ==> x >> 30 == 0) by (bit_vector);
                lemma_leading_zeros(x, 30);
                assert(shapes@.skip(i as int)[0] == shapes@[i as int]);
                assert(shapes@.skip(i as int).skip(1) =~= shapes@.skip(i + 1));
            }
            if self.len() == 10 {
                return ;
            }
            let ghost x = self.0;
            let ghost lz = vstd::std_specs::bits::u64_leading_zeros(x);
            let next = self.push_last(shapes[i]);
            proof {
                let n = ((64 - lz + 2) / 3) as u64;
                let c = shape_code(shapes@[i as int]);
                crate::shape::lemma_shape_index(shapes@[i as int]);
                assert(n < 10);
                assert(1 <= c <= 7 && n < 10 && x < 0x4000_0000 ==> (x | (c << (3 * n)))
                    < 0x4000_0000) by (bit_vector);
            }
            *self = next;
            i = i + 1;
        }
    }

    /// The queue of the shapes of `shapes`, of the first ten at most.
    pub fn from_shapes(shapes: &[Shape]) -> (r: Queue)
        ensures
            r.0 == extended(0, shapes@),
            r.0 < 0x4000_0000,
    {
        let mut queue = Queue::empty();
        queue.extend(shapes);
        queue
    }
}


/// The bits of a queue with `shape` pushed onto its front.
pub open spec fn first_bits(x: u64, shape: Shape) -> u64 {
    shape_code(shape) | (x << 3)
}

/// The bits of a queue with `shape` pushed in as its second piece.
pub open spec fn second_bits(x: u64, shape: Shape) -> u64 {
    (x & 7) | (shape_code(shape) << 3) | ((x & !7u64) << 3)
}

/// The queues that each of `queues` becomes when `shape` is pushed onto
/// its front or in as its second piece.
pub open spec fn unhold_step(queues: Set<u64>, shape: Shape) -> Set<u64> {
    Set::new(
        |q: u64|
            (exists|r: u64| queues.contains(r) && q == #[trigger] first_bits(r, shape)) || (exists|
                r: u64,
            |
                queues.contains(r) && q == #[trigger] second_bits(r, shape)),
    )
}

/// The queues that lead to `pieces` with the help of the hold: the last
/// piece alone, and from there backwards each piece pushed either onto the
/// front or behind the first piece.
pub open spec fn unhold_of(pieces: Seq<Shape>) -> Set<u64>
    decreases pieces.len(),
{
    if pieces.len() == 0 {
        set![0u64]
    } else if pieces.len() == 1 {
        set![shape_code(pieces[0])]
    } else {
        unhold_step(unhold_of(pieces.skip(1)), pieces[0])
    }
}

/// Whether the queues stand in rising order of their bits, none twice.
pub open spec fn rising(queues: Seq<Queue>) -> bool {
    forall|i: int, j: int| 0 <= i < j < queues.len() ==> queues[i].0 < queues[j].0
}

/// Puts `q` into a rising list at its place, unless it is there already.
pub fn insert_rising(list: &mut Vec<Queue>, q: Queue)
    requires
        rising(old(list)@),
    ensures
        rising(final(list)@),
        forall|x: Queue| #[trigger] final(list)@.contains(x) <==> old(list)@.contains(x) || x == q,
{
    let mut pos: usize = 0;
    while pos < list.len() && list[pos].0 < q.0
        invariant
            pos <= list.len(),
            *list == *old(list),
            forall|i: int| 0 <= i < pos ==> list@[i].0 < q.0,
        decreases list.len() - pos,
    {
        pos = pos + 1;
    }
    if pos < list.len() && list[pos].0 == q.0 {
        assert(list@[pos as int] == q);
        return ;
    }
    let ghost before = list@;
    list.insert(pos, q);
    proof {
        let after = list@;
        assert(after[pos as int] == q);
        assert forall|i: int, j: int| 0 <= i < j < after.len() implies after[i].0 < after[j].0 by {
            if i < pos {
                assert(after[i] == before[i]);
            } else if i > pos {
                assert(after[i] == before[i - 1]);
            }
            if j < pos {
                assert(after[j] == before[j]);
            } else if j > pos {
                assert(after[j] == before[j - 1]);
            }
        }
        assert forall|x: Queue| #[trigger] after.contains(x) <==> before.contains(x) || x == q by {
            if before.contains(x) {
                let i = choose|i: int| 0 <= i < before.len() && before[i] == x;
                if i < pos {
                    assert(after[i] == x);
                } else {
                    assert(after[i + 1] == x);
                }
            }
            if after.contains(x) && x != q {
                let i = choose|i: int| 0 <= i < after.len() && after[i] == x;
                if i < pos {
                    assert(before[i] == x);
                } else {
                    assert(before[i - 1] == x);
                }
            }
        }
    }
}

impl Queue {
    /// The pieces of the queue, the first one first.
    pub fn pieces(self) -> (r: Vec<Shape>)
        ensures
            r@ == self@,
    {
        let mut list: Vec<Shape> = Vec::new();
        let mut rest = self;
        let mut k: usize = 0;
        assert(list@ + take_pieces(rest.0, 22) =~= self@);
        while k < 22
            invariant
                k <= 22,
                list@ + take_pieces(rest.0, (22 - k) as nat) == self@,
            decreases 22 - k,
        {
            let ghost before = rest.0;
            let ghost seen = list@;
            match rest.next() {
                Some(shape) => {
                    list.push(shape);
                    proof {
                        let tail = take_pieces(rest.0, (21 - k) as nat);
                        assert(take_pieces(before, (22 - k) as nat) == seq![shape] + tail);
                        assert(list@ + tail =~= seen + (seq![shape] + tail));
                    }
                },
                None => {
                    proof {
                        assert(take_pieces(before, (22 - k) as nat) =~= Seq::<Shape>::empty());
                        assert(list@ + Seq::<Shape>::empty() =~= list@);
                    }
                    return list;
                },
            }
            k = k + 1;
        }
        assert(list@ + Seq::<Shape>::empty() =~= list@);
        list
    }

    /// The queues that lead to this queue with the help of the hold, in
    /// rising order of their bits: starting from the last piece alone, each
    /// piece before it is pushed either onto the front or behind the first
    /// piece of what was made so far.
    pub fn unhold(self) -> (r: Vec<Queue>)
        ensures
            rising(r@),
            forall|q: Queue| #[trigger] r@.contains(q) <==> unhold_of(self@).contains(q.0),
    {
        let me = self.pieces();
        let mut last: Vec<Queue> = Vec::new();
        if me.len() == 0 {
            last.push(Queue::empty());
            proof {
                assert(last@[0] == Queue(0));
                assert forall|q: Queue| #[trigger]
                    last@.contains(q) <==> unhold_of(self@).contains(q.0) by {
                    if last@.contains(q) {
                        let i = choose|i: int| 0 <= i < last@.len() && last@[i] == q;
                    }
                }
            }
            return last;
        }
        let tail = me[me.len() - 1];
        let first = Queue::empty().push_first(tail);
        last.push(first);
        let mut i: usize = me.len() - 1;
        proof {
            let c = shape_code(tail);
            assert(c | (0u64 << 3) == c) by (bit_vector);
            assert(last@[0] == Queue(c));
            assert(me@.skip(i as int) =~= seq![tail]);
            assert forall|q: Queue| #[trigger]
                last@.contains(q) <==> unhold_of(me@.skip(i as int)).contains(q.0) by {
                if last@.contains(q) {
                    let j = choose|j: int| 0 <= j < last@.len() && last@[j] == q;
                }
            }
        }
        while i > 0
            invariant
                i < me@.len(),
                me@ == self@,
                rising(last@),
                forall|j: int| 0 <= j < last@.len() ==> last@[j].0 != 0,
                forall|q: Queue| #[trigger]
                    last@.contains(q) <==> unhold_of(me@.skip(i as int)).contains(q.0),
            decreases i,
        {
            i = i - 1;
            let shape = me[i];
            let mut next: Vec<Queue> = Vec::new();
            let mut j: usize = 0;
            while j < last.len()
                invariant
                    j <= last@.len(),
                    rising(next@),
                    forall|x: int| 0 <= x < last@.len() ==> last@[x].0 != 0,
                    forall|x: int| 0 <= x < next@.len() ==> next@[x].0 != 0,
                    forall|q: Queue| #[trigger]
                        next@.contains(q) <==> (exists|x: int|
                            0 <= x < j && q.0 == #[trigger] first_bits(last@[x].0, shape)) || (exists|
                            x: int,
                        |
                            0 <= x < j && q.0 == #[trigger] second_bits(last@[x].0, shape)),
                decreases last@.len() - j,
            {
                let queue = last[j];
                let ghost before = next@;
                let a = queue.push_first(shape);
                let b = queue.push_second(shape);
                insert_rising(&mut next, a);
                let ghost mid = next@;
                insert_rising(&mut next, b);
                proof {
                    assert(a.0 == first_bits(last@[j as int].0, shape));
                    assert(b.0 == second_bits(last@[j as int].0, shape));
                    assert forall|x: int| 0 <= x < next@.len() implies next@[x].0 != 0 by {
                        let q = next@[x];
                        assert(next@.contains(q));
                        if mid.contains(q) {
                            if before.contains(q) {
                                let y = choose|y: int| 0 <= y < before.len() && before[y] == q;
                            }
                        }
                    }
                    assert forall|q: Queue| #[trigger]
                        next@.contains(q) <==> (exists|x: int|
                            0 <= x < j + 1 && q.0 == #[trigger] first_bits(last@[x].0, shape))
                            || (exists|x: int|
                            0 <= x < j + 1 && q.0 == #[trigger] second_bits(last@[x].0, shape)) by {
                        assert(mid.contains(q) <==> before.contains(q) || q == a);
                        assert(next@.contains(q) <==> mid.contains(q) || q == b);
                        if exists|x: int|
                            0 <= x < j && q.0 == #[trigger] first_bits(last@[x].0, shape) {
                            let x = choose|x: int|
                                0 <= x < j && q.0 == #[trigger] first_bits(last@[x].0, shape);
                            assert(0 <= x < j + 1 && q.0 == first_bits(last@[x].0, shape));
                        }
                        if exists|x: int|
                            0 <= x < j && q.0 == #[trigger] second_bits(last@[x].0, shape) {
                            let x = choose|x: int|
                                0 <= x < j && q.0 == #[trigger] second_bits(last@[x].0, shape);
                            assert(0 <= x < j + 1 && q.0 == second_bits(last@[x].0, shape));
                        }
                        if exists|x: int|
                            0 <= x < j + 1 && q.0 == #[trigger] first_bits(last@[x].0, shape) {
                            let x = choose|x: int|
                                0 <= x < j + 1 && q.0 == #[trigger] first_bits(last@[x].0, shape);
                            if x < j {
                                assert(before.contains(q));
                            } else {
                                assert(q == a);
                            }
                        }
                        if exists|x: int|
                            0 <= x < j + 1 && q.0 == #[trigger] second_bits(last@[x].0, shape) {
                            let x = choose|x: int|
                                0 <= x < j + 1 && q.0 == #[trigger] second_bits(last@[x].0, shape);
                            if x < j {
                                assert(before.contains(q));
                            } else {
                                assert(q == b);
                            }
                        }
                    }
                }
                j = j + 1;
            }
            proof {
                let longer = me@.skip(i as int);
                assert(longer.skip(1) =~= me@.skip(i + 1));
                assert(longer[0] == shape);
                assert(longer.len() >= 2);
                let rest = unhold_of(me@.skip(i + 1));
                assert forall|q: Queue| #[trigger]
                    next@.contains(q) <==> unhold_of(longer).contains(q.0) by {
                    if exists|x: int|
                        0 <= x < last@.len() && q.0 == #[trigger] first_bits(last@[x].0, shape) {
                        let x = choose|x: int|
                            0 <= x < last@.len() && q.0 == #[trigger] first_bits(last@[x].0, shape);
                        assert(last@.contains(last@[x]));
                        assert(rest.contains(last@[x].0));
                    }
                    if exists|x: int|
                        0 <= x < last@.len() && q.0 == #[trigger] second_bits(last@[x].0, shape) {
                        let x = choose|x: int|
                            0 <= x < last@.len() && q.0 == #[trigger] second_bits(last@[x].0, shape);
                        assert(last@.contains(last@[x]));
                        assert(rest.contains(last@[x].0));
                    }
                    if exists|r: u64| rest.contains(r) && q.0 == #[trigger] first_bits(r, shape) {
                        let r = choose|r: u64| rest.contains(r) && q.0 == #[trigger] first_bits(r, shape);
                        assert(last@.contains(Queue(r)));
                        let x = choose|x: int| 0 <= x < last@.len() && last@[x] == Queue(r);
                        assert(q.0 == first_bits(last@[x].0, shape));
                    }
                    if exists|r: u64| rest.contains(r) && q.0 == #[trigger] second_bits(r, shape) {
                        let r = choose|r: u64|
                            rest.contains(r) && q.0 == #[trigger] second_bits(r, shape);
                        assert(last@.contains(Queue(r)));
                        let x = choose|x: int| 0 <= x < last@.len() && last@[x] == Queue(r);
                        assert(q.0 == second_bits(last@[x].0, shape));
                    }
                }
            }
            last = next;
        }
        assert(me@.skip(0) =~= me@);
        last
    }
}


/// The number of groups of three bits up to the highest set bit.
pub open spec fn bits_len(x: u64) -> int {
    (64 - vstd::std_specs::bits::u64_leading_zeros(x) + 2) / 3
}

/// The ten lowest groups of `x` in reverse order, the empty groups taken
/// off the front.
pub open spec fn reversed(x: u64) -> u64 {
    natural_key(x) >> ((vstd::std_specs::bits::u64_trailing_zeros(natural_key(x)) / 3 * 3) as u64)
}

/// The shape that the lowest group of `t` stands for.
pub open spec fn piece_of(t: u64) -> Shape {
    Shape::at((t & 7) - 1)
}

/// The entries that the queues of `i` groups start with: nothing made yet,
/// and the queue reversed still to take.
pub open spec fn fresh(queues: Seq<Queue>, i: int) -> Set<(u64, u64)> {
    Set::new(
        |e: (u64, u64)|
            exists|x: int|
                0 <= x < queues.len() && bits_len(queues[x].0) == i && e == (
                    0u64,
                    #[trigger] reversed(queues[x].0),
                ),
    )
}

/// The entries after one more piece was taken: the piece is pushed onto the
/// front of what is made, or behind its first piece where there is one.
pub open spec fn moved_on(entries: Set<(u64, u64)>) -> Set<(u64, u64)> {
    Set::new(
        |e: (u64, u64)|
            (exists|m: u64, t: u64| #[trigger]
                entries.contains((m, t)) && t & 7 != 0 && e == (first_bits(m, piece_of(t)), t >> 3))
                || (exists|m: u64, t: u64| #[trigger]
                entries.contains((m, t)) && t & 7 != 0 && m != 0 && e == (
                    second_bits(m, piece_of(t)),
                    t >> 3,
                )),
    )
}

/// The entries with `i` pieces still to take: those of the queues of `i`
/// groups, and those that come of the entries with one piece more.
pub open spec fn unhold_stage(queues: Seq<Queue>, i: int) -> Set<(u64, u64)>
    decreases 10 - i,
{
    if i >= 10 {
        fresh(queues, i)
    } else {
        fresh(queues, i).union(moved_on(unhold_stage(queues, i + 1)))
    }
}

/// Whether the queues stand in rising order of their natural keys.
pub open spec fn rising_keys(queues: Seq<Queue>) -> bool {
    forall|i: int, j: int|
        0 <= i < j < queues.len() ==> natural_key(queues[i].0) <= natural_key(queues[j].0)
}

/// Adds `entry` to the list unless it is there already.
pub fn add_entry(list: &mut Vec<(Queue, Queue)>, entry: (Queue, Queue))
    ensures
        forall|x: (Queue, Queue)| #[trigger]
            final(list)@.contains(x) <==> old(list)@.contains(x) || x == entry,
{
    let mut i: usize = 0;
    while i < list.len()
        invariant
            i <= list.len(),
            *list == *old(list),
            forall|j: int| 0 <= j < i ==> list@[j] != entry,
        decreases list.len() - i,
    {
        if list[i].0 == entry.0 && list[i].1 == entry.1 {
            assert(list@[i as int] == entry);
            return ;
        }
        i = i + 1;
    }
    let ghost before = list@;
    list.push(entry);
    proof {
        assert(list@[before.len() as int] == entry);
        assert forall|x: (Queue, Queue)| #[trigger]
            list@.contains(x) <==> before.contains(x) || x == entry by {
            if before.contains(x) {
                let j = choose|j: int| 0 <= j < before.len() && before[j] == x;
                assert(list@[j] == x);
            }
            if list@.contains(x) && x != entry {
                let j = choose|j: int| 0 <= j < list@.len() && list@[j] == x;
                assert(before[j] == x);
            }
        }
    }
}

/// Puts `q` into a list that rises by natural key, behind the queues with
/// no greater key, unless it is in the list already.
pub fn insert_by_key(list: &mut Vec<Queue>, q: Queue)
    requires
        rising_keys(old(list)@),
        old(list)@.no_duplicates(),
    ensures
        rising_keys(final(list)@),
        final(list)@.no_duplicates(),
        forall|x: Queue| #[trigger] final(list)@.contains(x) <==> old(list)@.contains(x) || x == q,
{
    let key = q.natural_order_key();
    let mut i: usize = 0;
    while i < list.len()
        invariant
            i <= list.len(),
            *list == *old(list),
            rising_keys(list@),
            list@.no_duplicates(),
            forall|j: int| 0 <= j < i ==> list@[j] != q,
        decreases list.len() - i,
    {
        if list[i].0 == q.0 {
            assert(list@[i as int] == q);
            return ;
        }
        i = i + 1;
    }
    let mut pos: usize = 0;
    while pos < list.len() && list[pos].natural_order_key() <= key
        invariant
            pos <= list.len(),
            *list == *old(list),
            key == natural_key(q.0),
            forall|j: int| 0 <= j < pos ==> natural_key(list@[j].0) <= key,
        decreases list.len() - pos,
    {
        pos = pos + 1;
    }
    let ghost before = list@;
    list.insert(pos, q);
    proof {
        let after = list@;
        assert(after[pos as int] == q);
        assert forall|i: int, j: int| 0 <= i < j < after.len() implies natural_key(after[i].0)
            <= natural_key(after[j].0) by {
            if i < pos {
                assert(after[i] == before[i]);
            } else if i > pos {
                assert(after[i] == before[i - 1]);
            }
            if j < pos {
                assert(after[j] == before[j]);
            } else if j > pos {
                assert(after[j] == before[j - 1]);
                assert(natural_key(before[pos as int].0) <= natural_key(before[j - 1].0) || j - 1
                    == pos);
            }
        }
        assert forall|i: int, j: int| 0 <= i < after.len() && 0 <= j < after.len() && i != j implies after[i]
            != after[j] by {
            if i < pos {
                assert(after[i] == before[i]);
            } else if i > pos {
                assert(after[i] == before[i - 1]);
            }
            if j < pos {
                assert(after[j] == before[j]);
            } else if j > pos {
                assert(after[j] == before[j - 1]);
            }
        }
        assert forall|x: Queue| #[trigger] after.contains(x) <==> before.contains(x) || x == q by {
            if before.contains(x) {
                let i = choose|i: int| 0 <= i < before.len() && before[i] == x;
                if i < pos {
                    assert(after[i] == x);
                } else {
                    assert(after[i + 1] == x);
                }
            }
            if after.contains(x) && x != q {
                let i = choose|i: int| 0 <= i < after.len() && after[i] == x;
                if i < pos {
                    assert(before[i] == x);
                } else {
                    assert(before[i - 1] == x);
                }
            }
        }
    }
}

/// The entries of one stage: those of the queues of `i` groups, and those
/// that come of `this`, the entries with one piece more.
pub fn unhold_stage_from(queues: &[Queue], this: &Vec<(Queue, Queue)>, i: u32) -> (next: Vec<
    (Queue, Queue),
>)
    ensures
        forall|m: u64, t: u64| #[trigger]
            next@.contains((Queue(m), Queue(t))) <==> fresh(queues@, i as int).contains((m, t))
                || moved_on(
                Set::new(|e: (u64, u64)| this@.contains((Queue(e.0), Queue(e.1)))),
            ).contains((m, t)),
{
    let ghost entries = Set::new(|e: (u64, u64)| this@.contains((Queue(e.0), Queue(e.1))));
    let mut next: Vec<(Queue, Queue)> = Vec::new();
    let mut x: usize = 0;
    while x < queues.len()
        invariant
            x <= queues.len(),
            forall|m: u64, t: u64| #[trigger]
                next@.contains((Queue(m), Queue(t))) <==> fresh(queues@.take(x as int), i as int).contains(
                    (m, t),
                ),
        decreases queues.len() - x,
    {
        let queue = queues[x];
        let ghost before = next@;
        let ghost shorter = queues@.take(x as int);
        let ghost longer = queues@.take(x + 1);
        if queue.len() == i {
            add_entry(&mut next, (Queue::empty(), queue.reverse()));
        }
        proof {
            assert(longer =~= shorter.push(queue));
            assert forall|m: u64, t: u64| #[trigger]
                next@.contains((Queue(m), Queue(t))) <==> fresh(longer, i as int).contains((m, t)) by {
                assert(before.contains((Queue(m), Queue(t))) <==> fresh(shorter, i as int).contains(
                    (m, t),
                ));
                if fresh(shorter, i as int).contains((m, t)) {
                    let y = choose|y: int|
                        0 <= y < shorter.len() && bits_len(shorter[y].0) == i && (m, t) == (
                            0u64,
                            #[trigger] reversed(shorter[y].0),
                        );
                    assert(longer[y] == shorter[y]);
                    assert((m, t) == (0u64, reversed(longer[y].0)));
                }
                if bits_len(queue.0) == i && (m, t) == (0u64, reversed(queue.0)) {
                    assert(longer[x as int] == queue);
                    assert((m, t) == (0u64, reversed(longer[x as int].0)));
                }
                if fresh(longer, i as int).contains((m, t)) {
                    let y = choose|y: int|
                        0 <= y < longer.len() && bits_len(longer[y].0) == i && (m, t) == (
                            0u64,
                            #[trigger] reversed(longer[y].0),
                        );
                    if y < x {
                        assert(shorter[y] == longer[y]);
                        assert((m, t) == (0u64, reversed(shorter[y].0)));
                    }
                }
            }
        }
        x = x + 1;
    }
    assert(queues@.take(queues@.len() as int) =~= queues@);
    let mut k: usize = 0;
    while k < this.len()
        invariant
            k <= this@.len(),
            entries == Set::new(|e: (u64, u64)| this@.contains((Queue(e.0), Queue(e.1)))),
            forall|m: u64, t: u64| #[trigger]
                next@.contains((Queue(m), Queue(t))) <==> fresh(queues@, i as int).contains((m, t))
                    || moved_on(
                    Set::new(|e: (u64, u64)| this@.take(k as int).contains((Queue(e.0), Queue(e.1)))),
                ).contains((m, t)),
        decreases this@.len() - k,
    {
        let entry = this[k];
        let ghost before = next@;
        let ghost shorter = this@.take(k as int);
        let ghost longer = this@.take(k + 1);
        let ghost done = Set::new(|e: (u64, u64)| shorter.contains((Queue(e.0), Queue(e.1))));
        let ghost more = Set::new(|e: (u64, u64)| longer.contains((Queue(e.0), Queue(e.1))));
        let mut take = entry.1;
        let ghost em = entry.0.0;
        let ghost et = entry.1.0;
        let piece = take.next();
        match piece {
            Some(shape) => {
                add_entry(&mut next, (entry.0.push_first(shape), take));
                if !entry.0.is_empty() {
                    add_entry(&mut next, (entry.0.push_second(shape), take));
                }
            },
            None => {},
        }
        proof {
            assert(longer =~= shorter.push(entry));
            assert(longer[k as int] == entry);
            assert forall|e: (u64, u64)| more.contains(e) <==> done.contains(e) || e == (em, et) by {
                let pair = (Queue(e.0), Queue(e.1));
                if shorter.contains(pair) {
                    let y = choose|y: int| 0 <= y < shorter.len() && shorter[y] == pair;
                    assert(longer[y] == pair);
                }
                if longer.contains(pair) && pair != entry {
                    let y = choose|y: int| 0 <= y < longer.len() && longer[y] == pair;
                    assert(shorter[y] == pair);
                }
            }
            assert forall|m: u64, t: u64| #[trigger]
                next@.contains((Queue(m), Queue(t))) <==> fresh(queues@, i as int).contains((m, t))
                    || moved_on(more).contains((m, t)) by {
                let e = (m, t);
                assert(before.contains((Queue(m), Queue(t))) <==> fresh(queues@, i as int).contains(e)
                    || moved_on(done).contains(e));
                let a = (first_bits(em, piece_of(et)), et >> 3);
                let b = (second_bits(em, piece_of(et)), et >> 3);
                if exists|m0: u64, t0: u64| #[trigger]
                    done.contains((m0, t0)) && t0 & 7 != 0 && e == (
                        first_bits(m0, piece_of(t0)),
                        t0 >> 3,
                    ) {
                    let (m0, t0) = choose|m0: u64, t0: u64| #[trigger]
                        done.contains((m0, t0)) && t0 & 7 != 0 && e == (
                            first_bits(m0, piece_of(t0)),
                            t0 >> 3,
                        );
                    assert(more.contains((m0, t0)));
                }
                if exists|m0: u64, t0: u64| #[trigger]
                    done.contains((m0, t0)) && t0 & 7 != 0 && m0 != 0 && e == (
                        second_bits(m0, piece_of(t0)),
                        t0 >> 3,
                    ) {
                    let (m0, t0) = choose|m0: u64, t0: u64| #[trigger]
                        done.contains((m0, t0)) && t0 & 7 != 0 && m0 != 0 && e == (
                            second_bits(m0, piece_of(t0)),
                            t0 >> 3,
                        );
                    assert(more.contains((m0, t0)));
                }
                assert(more.contains((em, et)));
                if exists|m0: u64, t0: u64| #[trigger]
                    more.contains((m0, t0)) && t0 & 7 != 0 && e == (
                        first_bits(m0, piece_of(t0)),
                        t0 >> 3,
                    ) {
                    let (m0, t0) = choose|m0: u64, t0: u64| #[trigger]
                        more.contains((m0, t0)) && t0 & 7 != 0 && e == (
                            first_bits(m0, piece_of(t0)),
                            t0 >> 3,
                        );
                    if done.contains((m0, t0)) {
                    } else {
                        assert((m0, t0) == (em, et));
                        assert(e == a);
                    }
                }
                if exists|m0: u64, t0: u64| #[trigger]
                    more.contains((m0, t0)) && t0 & 7 != 0 && m0 != 0 && e == (
                        second_bits(m0, piece_of(t0)),
                        t0 >> 3,
                    ) {
                    let (m0, t0) = choose|m0: u64, t0: u64| #[trigger]
                        more.contains((m0, t0)) && t0 & 7 != 0 && m0 != 0 && e == (
                            second_bits(m0, piece_of(t0)),
                            t0 >> 3,
                        );
                    if done.contains((m0, t0)) {
                    } else {
                        assert((m0, t0) == (em, et));
                        assert(e == b);
                    }
                }
            }
        }
        k = k + 1;
    }
    proof {
        assert(this@.take(this@.len() as int) =~= this@);
    }
    next
}

impl Queue {
    /// The queues that lead to one of `queues` with the help of the hold,
    /// each once, in rising order of their natural keys. Each queue is
    /// taken apart from its last piece to its first, and each piece is
    /// pushed onto the front of what is made of it, or behind its first
    /// piece. A queue of more than ten groups is passed over, and so is
    /// what a queue with a gap leads to.
    pub fn unhold_many(queues: &[Queue]) -> (r: Vec<Queue>)
        ensures
            rising_keys(r@),
            r@.no_duplicates(),
            forall|q: Queue| #[trigger]
                r@.contains(q) <==> exists|t: u64| #[trigger]
                    unhold_stage(queues@, 0).contains((q.0, t)),
    {
        let mut this: Vec<(Queue, Queue)> = Vec::new();
        let mut i: u32 = 11;
        while i > 0
            invariant
                i <= 11,
                i == 11 ==> this@.len() == 0,
                i <= 10 ==> forall|m: u64, t: u64| #[trigger]
                    this@.contains((Queue(m), Queue(t))) <==> unhold_stage(queues@, i as int).contains(
                        (m, t),
                    ),
            decreases i,
        {
            i = i - 1;
            let next = unhold_stage_from(queues, &this, i);
            proof {
                let entries = Set::new(|e: (u64, u64)| this@.contains((Queue(e.0), Queue(e.1))));
                if i == 10 {
                    assert forall|e: (u64, u64)| !moved_on(entries).contains(e) by {
                    }
                } else {
                    assert(entries =~= unhold_stage(queues@, i + 1));
                }
            }
            this = next;
        }
        let mut results: Vec<Queue> = Vec::new();
        let mut k: usize = 0;
        while k < this.len()
            invariant
                k <= this@.len(),
                rising_keys(results@),
                results@.no_duplicates(),
                forall|q: Queue| #[trigger]
                    results@.contains(q) <==> exists|y: int|
                        0 <= y < k && (#[trigger] this@[y]).0 == q,
            decreases this@.len() - k,
        {
            let ghost before = results@;
            insert_by_key(&mut results, this[k].0);
            proof {
                assert forall|q: Queue| #[trigger]
                    results@.contains(q) <==> exists|y: int|
                        0 <= y < k + 1 && (#[trigger] this@[y]).0 == q by {
                    if before.contains(q) {
                        let y = choose|y: int| 0 <= y < k && (#[trigger] this@[y]).0 == q;
                        assert(0 <= y < k + 1 && this@[y].0 == q);
                    }
                    if q == this@[k as int].0 {
                        assert(this@[k as int].0 == q);
                    }
                    if exists|y: int| 0 <= y < k + 1 && (#[trigger] this@[y]).0 == q {
                        let y = choose|y: int| 0 <= y < k + 1 && (#[trigger] this@[y]).0 == q;
                        if y < k {
                            assert(before.contains(q));
                        }
                    }
                }
            }
            k = k + 1;
        }
        proof {
            assert forall|q: Queue| #[trigger]
                results@.contains(q) <==> exists|t: u64| #[trigger]
                    unhold_stage(queues@, 0).contains((q.0, t)) by {
                if results@.contains(q) {
                    let y = choose|y: int| 0 <= y < this@.len() && (#[trigger] this@[y]).0 == q;
                    let e = this@[y];
                    assert(this@.contains((Queue(e.0.0), Queue(e.1.0))));
                    assert(unhold_stage(queues@, 0).contains((q.0, e.1.0)));
                }
                if exists|t: u64| #[trigger] unhold_stage(queues@, 0).contains((q.0, t)) {
                    let t = choose|t: u64| #[trigger] unhold_stage(queues@, 0).contains((q.0, t));
                    assert(this@.contains((Queue(q.0), Queue(t))));
                    let y = choose|y: int| 0 <= y < this@.len() && this@[y] == (Queue(q.0), Queue(t));
                    assert(this@[y].0 == q);
                }
            }
        }
        results
    }
}

} // verus!
