//! A bounded FIFO queue over a ring of stamped slots.
//!
//! Each slot carries a stamp that tells its state apart: a slot at index `i`
//! on lap `L` is empty and waiting for the producer at position `L + i` when
//! its stamp is `L + i`, and full, waiting for the consumer at that
//! position, when its stamp is `L + i + 1`. Popping a slot stamps it with the
//! position one lap later, ready for the next producer.
use vstd::prelude::*;

use crate::padded::CachePadded;
use crate::position::{
    index_of,
    is_lap,
    lap_of,
    lemma_add_span,
    lemma_join,
    lemma_masks,
    lemma_next_lap,
    lemma_span,
    lemma_split_word,
    next_lap,
    valid_span,
    word,
};

verus! {

use vstd::arithmetic::power::pow;
use vstd::multiset::Multiset;
use vstd::arithmetic::power2::{is_pow2, is_pow2_exists, is_pow2_equiv, pow2, lemma_pow2, lemma_pow2_unfold, lemma_pow2_strictly_increases};

/// The contents after pushing `v` onto `q` in a queue of capacity `cap`: `v`
/// goes to the back, unless the queue is full.
pub open spec fn after_push<T>(q: Seq<T>, cap: nat, v: T) -> Seq<T> {
    if q.len() < cap {
        q.push(v)
    } else {
        q
    }
}

/// What pushing `v` onto `q` returns: success, or `v` itself when the queue
/// is full.
pub open spec fn push_result<T>(q: Seq<T>, cap: nat, v: T) -> Result<(), T> {
    if q.len() < cap {
        Ok(())
    } else {
        Err(v)
    }
}

/// What popping from `q` returns: the front value, or nothing when `q` is
/// empty.
pub open spec fn pop_result<T>(q: Seq<T>) -> Option<T> {
    if q.len() > 0 {
        Some(q[0])
    } else {
        None
    }
}

/// The contents after popping from `q`: the front leaves, unless `q` is empty.
pub open spec fn after_pop<T>(q: Seq<T>) -> Seq<T> {
    if q.len() > 0 {
        q.drop_first()
    } else {
        q
    }
}

/// The position that slot `i` has on the lap that starts at `lap`, when the
/// positions of that lap begin at index `from`: indices below `from` belong
/// to the following lap.
spec fn position_in(lap: int, from: int, i: int, span: int) -> int {
    (if i >= from {
        lap
    } else {
        next_lap(lap, span)
    }) + i
}

struct Slot<T> {
    stamp: usize,
    value: Option<T>,
}

/// The values stored in `slots`, as a multiset.
spec fn held<T>(slots: Seq<Slot<T>>) -> Multiset<T>
    decreases slots.len(),
{
    if slots.len() == 0 {
        Multiset::empty()
    } else {
        match slots.last().value {
            Some(v) => held(slots.drop_last()).insert(v),
            None => held(slots.drop_last()),
        }
    }
}

proof fn lemma_held_append<T>(a: Seq<Slot<T>>, b: Seq<Slot<T>>)
    ensures
        held(a + b) == held(a).add(held(b)),
    decreases b.len(),
{
    if b.len() == 0 {
        assert(a + b =~= a);
        assert(held(a).add(Multiset::empty()) =~= held(a));
    } else {
        assert((a + b).drop_last() =~= a + b.drop_last());
        lemma_held_append(a, b.drop_last());
        assert((a + b).last() == b.last());
        if let Some(v) = b.last().value {
            assert(held(a).add(held(b.drop_last()).insert(v)) =~= held(a).add(
                held(b.drop_last()),
            ).insert(v));
        }
    }
}

/// Slots whose first `n` entries hold `values` in order and whose other
/// entries are empty store exactly `values`.
proof fn lemma_held_prefix<T>(slots: Seq<Slot<T>>, values: Seq<T>)
    requires
        values.len() <= slots.len(),
        forall|k: int| 0 <= k < values.len() ==> #[trigger] slots[k].value == Some(values[k]),
        forall|k: int| values.len() <= k < slots.len() ==> #[trigger] slots[k].value is None,
    ensures
        held(slots) == values.to_multiset(),
    decreases slots.len(),
{
    broadcast use vstd::seq_lib::group_to_multiset_ensures;

    if slots.len() == 0 {
        assert(values.to_multiset() =~= Multiset::empty());
    } else if slots.len() > values.len() {
        lemma_held_prefix(slots.drop_last(), values);
    } else {
        let v = values.last();
        lemma_held_prefix(slots.drop_last(), values.drop_last());
        assert(values.drop_last().push(v) =~= values);
    }
}

/// A bounded first-in first-out queue of fixed capacity.
///
/// Pushing and popping take the queue by `&mut`; threads that share one hold
/// it behind a lock.
pub struct ArrayQueue<T> {
    head: CachePadded<usize>,
    tail: CachePadded<usize>,
    buffer: Vec<Slot<T>>,
    one_lap: usize,
    lap_bits: Ghost<nat>,
}

impl<T> ArrayQueue<T> {
    /// The number of slots.
    pub closed spec fn cap(&self) -> nat {
        self.buffer@.len()
    }

    /// The position of the next value to pop.
    pub closed spec fn head_pos(&self) -> usize {
        self.head.inner()
    }

    /// The position of the next value to push.
    pub closed spec fn tail_pos(&self) -> usize {
        self.tail.inner()
    }

    /// The stamp of slot `i`.
    pub closed spec fn stamp(&self, i: int) -> usize {
        self.buffer@[i].stamp
    }

    /// Whether slot `i` stores a value.
    pub closed spec fn stores(&self, i: int) -> bool {
        self.buffer@[i].value is Some
    }

    spec fn span(&self) -> int {
        self.one_lap as int
    }

    spec fn head_lap(&self) -> int {
        lap_of(self.head.inner() as int, self.span())
    }

    spec fn head_index(&self) -> int {
        index_of(self.head.inner() as int, self.span())
    }

    spec fn tail_lap(&self) -> int {
        lap_of(self.tail.inner() as int, self.span())
    }

    spec fn tail_index(&self) -> int {
        index_of(self.tail.inner() as int, self.span())
    }

    /// The tail has gone round to the lap after the head's.
    spec fn wrapped(&self) -> bool {
        self.tail_lap() != self.head_lap()
    }

    /// The number of values held.
    spec fn count(&self) -> nat {
        if self.wrapped() {
            (self.cap() - self.head_index() + self.tail_index()) as nat
        } else {
            (self.tail_index() - self.head_index()) as nat
        }
    }

    /// Slot `i` holds a value: it lies between head and tail.
    spec fn occupied(&self, i: int) -> bool {
        if self.wrapped() {
            i >= self.head_index() || i < self.tail_index()
        } else {
            self.head_index() <= i < self.tail_index()
        }
    }

    /// The stamp that slot `i` carries: the position of its value plus one
    /// when full, the position of the next producer to fill it when empty.
    spec fn expected_stamp(&self, i: int) -> int {
        if self.occupied(i) {
            position_in(self.head_lap(), self.head_index(), i, self.span()) + 1
        } else {
            position_in(self.tail_lap(), self.tail_index(), i, self.span())
        }
    }

    /// The slot that holds the `j`-th value from the front.
    spec fn slot_of(&self, j: int) -> int {
        if self.head_index() + j < self.cap() {
            self.head_index() + j
        } else {
            self.head_index() + j - self.cap()
        }
    }

    spec fn slot_ok(&self, i: int) -> bool {
        &&& self.buffer@[i].stamp == self.expected_stamp(i)
        &&& (self.buffer@[i].value is Some <==> self.occupied(i))
    }

    /// Well-formedness: the lap span fits the capacity, head and tail are
    /// positions in range at most one lap apart, and every slot's stamp and
    /// storage agree with where it lies between them.
    pub closed spec fn wf(&self) -> bool {
        &&& valid_span(self.span(), self.lap_bits@)
        &&& 0 < self.cap() < self.span() <= 2 * self.cap()
        &&& self.head_index() < self.cap()
        &&& self.tail_index() < self.cap()
        &&& if self.wrapped() {
            self.tail_lap() == next_lap(self.head_lap(), self.span()) && self.tail_index()
                <= self.head_index()
        } else {
            self.head_index() <= self.tail_index()
        }
        &&& forall|i: int| 0 <= i < self.cap() ==> #[trigger] self.slot_ok(i)
    }
}

impl<T> View for ArrayQueue<T> {
    type V = Seq<T>;

    /// The values held, front first.
    closed spec fn view(&self) -> Seq<T> {
        Seq::new(self.count(), |j: int| self.buffer@[self.slot_of(j)].value->Some_0)
    }
}

impl<T> ArrayQueue<T> {
    /// Facts about head and tail that follow from well-formedness.
    proof fn lemma_ends(&self)
        requires
            self.wf(),
        ensures
            is_lap(self.head_lap(), self.span()),
            is_lap(self.tail_lap(), self.span()),
            self.head.inner() == self.head_lap() + self.head_index(),
            self.tail.inner() == self.tail_lap() + self.tail_index(),
            0 <= self.head_index(),
            0 <= self.tail_index(),
            self.count() <= self.cap(),
            self@.len() == self.count(),
            self.span() >= 2,
            next_lap(self.head_lap(), self.span()) != self.head_lap(),
            is_lap(next_lap(self.head_lap(), self.span()), self.span()),
            is_lap(next_lap(self.tail_lap(), self.span()), self.span()),
    {
        let s = self.span();
        let bits = self.lap_bits@;
        lemma_split_word(self.head.inner() as int, s, bits);
        lemma_split_word(self.tail.inner() as int, s, bits);
        lemma_next_lap(self.head_lap(), s, bits);
        lemma_next_lap(self.tail_lap(), s, bits);
    }

    /// The `j`-th value from the front sits in slot `slot_of(j)`, and
    /// distinct values sit in distinct slots.
    proof fn lemma_slots(&self)
        requires
            self.wf(),
        ensures
            forall|j: int|
                0 <= j < self@.len() ==> {
                    &&& 0 <= #[trigger] self.slot_of(j) < self.cap()
                    &&& self.occupied(self.slot_of(j))
                    &&& self.buffer@[self.slot_of(j)].value == Some(self@[j])
                },
            forall|j: int, k: int|
                0 <= j < self@.len() && 0 <= k < self@.len() && j != k ==> #[trigger] self.slot_of(
                    j,
                ) != #[trigger] self.slot_of(k),
    {
        self.lemma_ends();
        assert forall|j: int| 0 <= j < self@.len() implies {
            &&& 0 <= #[trigger] self.slot_of(j) < self.cap()
            &&& self.occupied(self.slot_of(j))
            &&& self.buffer@[self.slot_of(j)].value == Some(self@[j])
        } by {
            assert(self.slot_ok(self.slot_of(j)));
        }
    }

    /// The values stored in the slots, as a multiset: what dropping the
    /// queue destroys.
    pub closed spec fn stored(&self) -> Multiset<T> {
        held(self.buffer@)
    }

    /// A well-formed queue holds at most `cap` values.
    pub proof fn lemma_len_bound(&self)
        requires
            self.wf(),
        ensures
            0 < self.cap(),
            self@.len() <= self.cap(),
    {
        self.lemma_ends();
    }

    /// The slots store the queue's contents and nothing else: each value
    /// held is stored once, and no empty slot stores one, so dropping the
    /// queue destroys every value left in it exactly once.
    pub proof fn lemma_stored_is_contents(&self)
        requires
            self.wf(),
        ensures
            self.stored() == self@.to_multiset(),
    {
        self.lemma_ends();
        self.lemma_slots();
        let b = self.buffer@;
        let hi = self.head_index();
        let rotated = b.subrange(hi, b.len() as int) + b.subrange(0, hi);
        assert(b =~= b.subrange(0, hi) + b.subrange(hi, b.len() as int));
        lemma_held_append(b.subrange(0, hi), b.subrange(hi, b.len() as int));
        lemma_held_append(b.subrange(hi, b.len() as int), b.subrange(0, hi));
        assert(held(b) =~= held(rotated));
        assert forall|k: int| 0 <= k < rotated.len() implies #[trigger] rotated[k] == b[self.slot_of(
            k,
        )] by {}
        assert forall|k: int| self@.len() <= k < rotated.len() implies #[trigger] rotated[k].value is None by {
            assert(!self.occupied(self.slot_of(k)));
            assert(self.slot_ok(self.slot_of(k)));
        }
        lemma_held_prefix(rotated, self@);
    }

    /// Creates an empty queue with `cap` slots.
    pub fn new(cap: usize) -> (r: Self)
        requires
            0 < cap <= usize::MAX / 2,
        ensures
            r.wf(),
            r.cap() == cap,
            r@ == Seq::<T>::empty(),
            r.head_pos() == 0,
            r.tail_pos() == 0,
            forall|i: int| 0 <= i < cap ==> #[trigger] r.stamp(i) == i && !r.stores(i),
    {
        let mut buffer: Vec<Slot<T>> = Vec::with_capacity(cap);
        let mut i: usize = 0;
        while i < cap
            invariant
                i <= cap,
                buffer@.len() == i,
                forall|j: int|
                    0 <= j < i ==> (#[trigger] buffer@[j]).stamp == j && buffer@[j].value is None,
            decreases cap - i,
        {
            buffer.push(Slot { stamp: i, value: None });
            i = i + 1;
        }
        // The smallest power of two above `cap`.
        let mut one_lap: usize = 1;
        let ghost mut bits: nat = 0;
        proof {
            vstd::arithmetic::power2::lemma2_to64();
        }
        while one_lap <= cap
            invariant
                one_lap == pow2(bits),
                1 <= one_lap <= 2 * cap,
                0 < cap <= usize::MAX / 2,
            decreases 2 * cap - one_lap,
        {
            proof {
                lemma_pow2_unfold(bits + 1);
            }
            one_lap = one_lap * 2;
            proof {
                bits = bits + 1;
            }
        }
        proof {
            if bits >= usize::BITS {
                lemma_pow2_strictly_increases(usize::BITS as nat, bits);
                vstd::arithmetic::power2::lemma2_to64();
            }
        }
        let r = ArrayQueue {
            head: CachePadded::new(0),
            tail: CachePadded::new(0),
            buffer,
            one_lap,
            lap_bits: Ghost(bits),
        };
        proof {
            lemma_span(one_lap as int, bits);
            lemma_join(0, 0, one_lap as int, bits);
            assert forall|i: int| 0 <= i < r.cap() implies #[trigger] r.slot_ok(i) by {
                lemma_join(0, i, one_lap as int, bits);
            }
            assert(r@ =~= Seq::<T>::empty());
        }
        r
    }

    /// The number of slots.
    pub fn capacity(&self) -> (r: usize)
        ensures
            r == self.cap(),
    {
        self.buffer.len()
    }

    /// The lap span: the smallest power of two above the capacity.
    pub fn one_lap(&self) -> (r: usize)
        requires
            self.wf(),
        ensures
            is_pow2(r as int),
            self.cap() < r <= 2 * self.cap(),
    {
        proof {
            lemma_pow2(self.lap_bits@);
            assert(pow(2, self.lap_bits@) == self.one_lap);
            assert(is_pow2_exists(self.one_lap as int));
            is_pow2_equiv(self.one_lap as int);
        }
        self.one_lap
    }

    /// Whether the queue holds no value: head and tail are equal.
    pub fn is_empty(&self) -> (r: bool)
        requires
            self.wf(),
        ensures
            r == (self@.len() == 0),
    {
        proof {
            self.lemma_ends();
        }
        let head = *self.head.get();
        let tail = *self.tail.get();
        tail == head
    }

    /// Whether the queue holds `cap` values: the tail is one lap ahead of
    /// the head.
    pub fn is_full(&self) -> (r: bool)
        requires
            self.wf(),
        ensures
            r == (self@.len() == self.cap()),
    {
        proof {
            self.lemma_ends();
            lemma_add_span(self.head.inner() as int, self.span(), self.lap_bits@);
            let ahead = next_lap(self.head_lap(), self.span());
            lemma_join(ahead, self.head_index(), self.span(), self.lap_bits@);
        }
        let tail = *self.tail.get();
        let head = *self.head.get();
        head.wrapping_add(self.one_lap) == tail
    }
}


impl<T> ArrayQueue<T> {
    /// Appends `value` at the back, or hands it back when the queue is full.
    ///
    /// The slot at the tail is ready for this producer when its stamp equals
    /// the tail; it then takes the value and the stamp `tail + 1`, and the
    /// tail moves on. Otherwise the slot still holds the value pushed one lap
    /// earlier, and the queue is full.
    pub fn push(&mut self, value: T) -> (r: Result<(), T>)
        requires
            old(self).wf(),
        ensures
            final(self).wf(),
            final(self).cap() == old(self).cap(),
            final(self)@ == after_push(old(self)@, old(self).cap(), value),
            r == push_result(old(self)@, old(self).cap(), value),
    {
        proof {
            self.lemma_ends();
        }
        let ghost bits = self.lap_bits@;
        let ghost s = self.span();
        let ghost hl = self.head_lap();
        let ghost hi = self.head_index();
        let ghost tl = self.tail_lap();
        let ghost ti = self.tail_index();
        let tail = *self.tail.get();
        proof {
            lemma_masks(tail, self.one_lap, bits);
        }
        let index = tail & (self.one_lap - 1);
        let lap = tail & !(self.one_lap - 1);
        let next_tail = if index + 1 < self.buffer.len() {
            tail + 1
        } else {
            lap.wrapping_add(self.one_lap)
        };
        let stamp = self.buffer[index].stamp;
        assert(self.slot_ok(ti));
        if tail == stamp {
            let ghost pre = *self;
            self.tail = CachePadded::new(next_tail);
            self.buffer[index].value = Some(value);
            self.buffer[index].stamp = tail + 1;
            proof {
                assert(!pre.occupied(ti));
                if ti + 1 < pre.cap() {
                    lemma_join(tl, ti + 1, s, bits);
                } else {
                    lemma_join(next_lap(tl, s), 0, s, bits);
                }
                assert(self.head_lap() == hl && self.head_index() == hi);
                assert forall|i: int| 0 <= i < self.cap() implies #[trigger] self.slot_ok(i) by {
                    if i != ti {
                        assert(pre.slot_ok(i));
                        assert(self.buffer@[i] == pre.buffer@[i]);
                    }
                }
                assert(self@ =~= pre@.push(value)) by {
                    assert forall|j: int| 0 <= j < pre@.len() implies self@[j] == pre@[j] by {
                        assert(pre.occupied(pre.slot_of(j)));
                    }
                }
            }
            Ok(())
        } else {
            // The slot still holds the value pushed one lap earlier: the tail
            // is a full lap ahead of the head.
            proof {
                assert(self.occupied(ti));
            }
            Err(value)
        }
    }
}


impl<T> ArrayQueue<T> {
    /// Takes the value at the front, or gives nothing when the queue is
    /// empty.
    ///
    /// The slot at the head holds the value for this consumer when its stamp
    /// is `head + 1`; the value leaves, the slot is stamped with the position
    /// one lap later for the next producer, and the head moves on. Otherwise
    /// the stamp equals the head and the queue is empty.
    pub fn pop(&mut self) -> (r: Option<T>)
        requires
            old(self).wf(),
        ensures
            final(self).wf(),
            final(self).cap() == old(self).cap(),
            final(self)@ == after_pop(old(self)@),
            r == pop_result(old(self)@),
    {
        proof {
            self.lemma_ends();
        }
        let ghost bits = self.lap_bits@;
        let ghost s = self.span();
        let ghost hl = self.head_lap();
        let ghost hi = self.head_index();
        let ghost tl = self.tail_lap();
        let ghost ti = self.tail_index();
        let head = *self.head.get();
        proof {
            lemma_masks(head, self.one_lap, bits);
            lemma_add_span(head as int, s, bits);
        }
        let index = head & (self.one_lap - 1);
        let lap = head & !(self.one_lap - 1);
        let stamp = self.buffer[index].stamp;
        assert(self.slot_ok(hi));
        if head + 1 == stamp {
            let ghost pre = *self;
            let next_head = if index + 1 < self.buffer.len() {
                head + 1
            } else {
                lap.wrapping_add(self.one_lap)
            };
            self.head = CachePadded::new(next_head);
            let value = self.buffer[index].value.take();
            self.buffer[index].stamp = head.wrapping_add(self.one_lap);
            proof {
                assert(pre.occupied(hi));
                if hi + 1 < pre.cap() {
                    lemma_join(hl, hi + 1, s, bits);
                } else {
                    lemma_join(next_lap(hl, s), 0, s, bits);
                }
                assert(self.tail_lap() == tl && self.tail_index() == ti);
                assert forall|i: int| 0 <= i < self.cap() implies #[trigger] self.slot_ok(i) by {
                    if i != hi {
                        assert(pre.slot_ok(i));
                        assert(self.buffer@[i] == pre.buffer@[i]);
                    }
                }
                assert(pre.slot_of(0) == hi);
                assert(self@ =~= pre@.drop_first()) by {
                    assert forall|j: int| 0 <= j < self@.len() implies self@[j] == pre@[j + 1] by {
                        assert(self.slot_of(j) == pre.slot_of(j + 1));
                        assert(self.occupied(self.slot_of(j)));
                    }
                }
            }
            value
        } else {
            // The slot waits for the producer at the head's position: the
            // head has caught up with the tail.
            proof {
                assert(!self.occupied(hi));
            }
            None
        }
    }
}


impl<T> ArrayQueue<T> {
    /// The number of values held, counted from the indices of head and tail:
    /// the slots from the head's index up to the tail's, wrapping round the
    /// ring when the tail's index is the smaller, and all of them when the
    /// indices meet on different laps.
    pub fn len(&self) -> (r: usize)
        requires
            self.wf(),
        ensures
            r == self@.len(),
    {
        proof {
            self.lemma_ends();
            lemma_masks(self.head.inner(), self.one_lap, self.lap_bits@);
            lemma_masks(self.tail.inner(), self.one_lap, self.lap_bits@);
        }
        let head = *self.head.get();
        let tail = *self.tail.get();
        let hix = head & (self.one_lap - 1);
        let tix = tail & (self.one_lap - 1);
        if hix < tix {
            tix - hix
        } else if hix > tix {
            self.buffer.len() - hix + tix
        } else if tail == head {
            0
        } else {
            self.buffer.len()
        }
    }

    /// Takes every value out of the queue, front first, walking the occupied
    /// slots from the head's index round the ring and leaving the empty ones
    /// untouched.
    pub fn into_vec(self) -> (r: Vec<T>)
        requires
            self.wf(),
        ensures
            r@ == self@,
    {
        let ghost q = self;
        let ghost contents = self@;
        let len = self.len();
        let cap = self.buffer.len();
        proof {
            self.lemma_ends();
            self.lemma_slots();
            lemma_span(self.span(), self.lap_bits@);
            lemma_masks(self.head.inner(), self.one_lap, self.lap_bits@);
        }
        let head = *self.head.get();
        let hix = head & (self.one_lap - 1);
        let mut buffer = self.buffer;
        let mut values: Vec<T> = Vec::with_capacity(len);
        let mut i: usize = 0;
        while i < len
            invariant
                len == contents.len(),
                contents == q@,
                len <= cap,
                2 * cap < word(),
                cap == buffer@.len(),
                cap == q.cap(),
                hix == q.head_index(),
                hix < cap,
                i <= len,
                values@ == contents.take(i as int),
                forall|j: int|
                    i <= j < len ==> (#[trigger] buffer@[q.slot_of(j)]).value == Some(
                        contents[j],
                    ),
                forall|j: int| 0 <= j < len ==> 0 <= #[trigger] q.slot_of(j) < cap,
                forall|j: int, k: int|
                    0 <= j < len && 0 <= k < len && j != k ==> #[trigger] q.slot_of(j)
                        != #[trigger] q.slot_of(k),
            decreases len - i,
        {
            let index = if hix + i < cap {
                hix + i
            } else {
                hix + i - cap
            };
            assert(index == q.slot_of(i as int));
            let value = buffer[index].value.take();
            proof {
                assert(value == Some(contents[i as int]));
                assert forall|j: int| i + 1 <= j < len implies (#[trigger] buffer@[q.slot_of(
                    j,
                )]).value == Some(contents[j]) by {
                    assert(q.slot_of(j) != q.slot_of(i as int));
                }
            }
            match value {
                Some(v) => values.push(v),
                None => {},
            }
            i = i + 1;
            assert(values@ =~= contents.take(i as int));
        }
        assert(values@ =~= contents);
        values
    }
}

} // verus!
