//! A fixed-capacity FIFO ring buffer over a vector of optional slots.
//!
//! The buffer keeps a read position (`head`), a write position (`tail`) and the
//! number of stored items. Its observable state is the whole slot vector
//! together with those three positions: indexing and the text rendering look
//! at the raw slots, so the model exposes them rather than only the queue.
use vstd::prelude::*;
use crate::text::{int_text, push_int, push_str};

verus! {

broadcast use vstd::seq::group_seq_axioms;

/// Errors returned by [`CircularBuffer::write`].
#[derive(Debug, PartialEq, Eq)]
pub enum BufferError {
    GenericError(String),
    BufferIsEmpty,
    BufferOverflow,
}

pub struct CircularBuffer<T> {
    head: usize,
    tail: usize,
    buffer: Vec<Option<T>>,
    num: usize,
}

/// The slot that lies `i` places after slot `h` in a ring of `cap` slots,
/// for `h < cap` and `i <= cap`.
pub open spec fn ring_index(h: int, i: int, cap: int) -> int {
    if h + i < cap { h + i } else { h + i - cap }
}

impl<T> CircularBuffer<T> {
    /// The raw slots, in physical order.
    pub closed spec fn slots(&self) -> Seq<Option<T>> {
        self.buffer@
    }

    /// The physical position of the oldest item.
    pub closed spec fn head_pos(&self) -> int {
        self.head as int
    }

    /// The physical position the next write goes to.
    pub closed spec fn tail_pos(&self) -> int {
        self.tail as int
    }

    /// The number of items stored.
    pub closed spec fn count(&self) -> int {
        self.num as int
    }

    pub open spec fn capacity(&self) -> int {
        self.slots().len() as int
    }

    /// The stored items, oldest first.
    pub open spec fn contents(&self) -> Seq<T> {
        Seq::new(
            self.count() as nat,
            |i: int| self.slots()[ring_index(self.head_pos(), i, self.capacity())]->Some_0,
        )
    }

    /// Well-formedness: positions lie in the ring, the write position follows
    /// the stored items, and every slot that holds a stored item is occupied.
    pub open spec fn wf(&self) -> bool {
        let cap = self.capacity();
        &&& 0 <= self.count() <= cap
        &&& cap == 0 ==> self.head_pos() == 0 && self.tail_pos() == 0
        &&& cap > 0 ==> {
            &&& 0 <= self.head_pos() < cap
            &&& self.tail_pos() == ring_index(self.head_pos(), self.count(), cap)
        }
        &&& forall|i: int|
            0 <= i < self.count() ==> (#[trigger] self.slots()[ring_index(self.head_pos(), i, cap)]) is Some
    }

    /// Creates an empty buffer with `capacity` free slots.
    pub fn new(capacity: usize) -> (b: Self)
        ensures
            b.wf(),
            b.slots() == Seq::new(capacity as nat, |i: int| None::<T>),
            b.head_pos() == 0,
            b.tail_pos() == 0,
            b.count() == 0,
            b.contents() == Seq::<T>::empty(),
    {
        let mut buffer: Vec<Option<T>> = Vec::new();
        let mut k: usize = 0;
        while k < capacity
            invariant
                k <= capacity,
                buffer@ == Seq::new(k as nat, |i: int| None::<T>),
            decreases capacity - k,
        {
            buffer.push(None);
            k = k + 1;
        }
        let b = CircularBuffer { head: 0, tail: 0, buffer, num: 0 };
        assert(b.contents() =~= Seq::<T>::empty());
        b
    }

    /// The number of slots.
    pub fn size(&self) -> (n: usize)
        ensures
            n == self.capacity(),
    {
        self.buffer.len()
    }

    /// The number of stored items.
    pub fn num(&self) -> (n: usize)
        ensures
            n == self.count(),
    {
        self.num
    }

    /// Appends an item.
    ///
    /// With no slots at all it fails with `BufferIsEmpty`; when every slot holds
    /// an item it fails with `BufferOverflow`; in both cases nothing changes.
    pub fn write(&mut self, item: T) -> (r: Result<(), BufferError>)
        requires
            old(self).wf(),
        ensures
            final(self).wf(),
            old(self).capacity() == 0 ==> r == Err::<(), BufferError>(BufferError::BufferIsEmpty)
                && *final(self) == *old(self),
            old(self).capacity() > 0 && old(self).count() == old(self).capacity()
                ==> r == Err::<(), BufferError>(BufferError::BufferOverflow) && *final(self) == *old(self),
            old(self).capacity() > 0 && old(self).count() < old(self).capacity() ==> {
                &&& r == Ok::<(), BufferError>(())
                &&& final(self).slots() == old(self).slots().update(old(self).tail_pos(), Some(item))
                &&& final(self).head_pos() == old(self).head_pos()
                &&& final(self).tail_pos() == ring_index(old(self).tail_pos(), 1, old(self).capacity())
                &&& final(self).count() == old(self).count() + 1
                &&& final(self).contents() == old(self).contents().push(item)
            },
            write_step(*old(self), item, r, *final(self)),
    {
        let size = self.buffer.len();
        if size == 0 {
            Err(BufferError::BufferIsEmpty)
        } else if self.num != 0 && size == self.num {
            Err(BufferError::BufferOverflow)
        } else {
            let ghost old_contents = self.contents();
            let t = self.tail;
            self.buffer.set(t, Some(item));
            self.tail = if t + 1 == size { 0 } else { t + 1 };
            self.num = self.num + 1;
            proof {
                let cap = size as int;
                let h = self.head as int;
                assert forall|i: int| 0 <= i < self.num implies
                    (#[trigger] self.buffer@[ring_index(h, i, cap)]) is Some by {
                    if i < self.num - 1 {
                        assert(old(self).buffer@[ring_index(h, i, cap)] is Some);
                    }
                }
                assert forall|i: int| 0 <= i < self.num - 1 implies
                    ring_index(h, i, cap) != t as int by {}
                assert(self.contents() =~= old_contents.push(item));
            }
            Ok(())
        }
    }

    /// Removes and returns the oldest item, or `None` when there is none.
    /// The slot it came from is left empty.
    pub fn read(&mut self) -> (r: Option<T>)
        requires
            old(self).wf(),
        ensures
            final(self).wf(),
            old(self).count() == 0 ==> r == None::<T> && *final(self) == *old(self),
            old(self).count() > 0 ==> {
                &&& r == Some(old(self).contents()[0])
                &&& final(self).slots() == old(self).slots().update(old(self).head_pos(), None)
                &&& final(self).head_pos() == ring_index(old(self).head_pos(), 1, old(self).capacity())
                &&& final(self).tail_pos() == old(self).tail_pos()
                &&& final(self).count() == old(self).count() - 1
                &&& final(self).contents() == old(self).contents().drop_first()
            },
            read_step(*old(self), r, *final(self)),
    {
        if self.num != 0 {
            let ghost old_contents = self.contents();
            let size = self.buffer.len();
            let h = self.head;
            let mut res: Option<T> = None;
            self.buffer.set_and_swap(h, &mut res);
            self.head = if h + 1 == size { 0 } else { h + 1 };
            self.num = self.num - 1;
            proof {
                let cap = size as int;
                assert(old(self).buffer@[ring_index(h as int, 0, cap)] is Some);
                assert forall|i: int| 0 <= i < self.num implies
                    (#[trigger] self.buffer@[ring_index(self.head as int, i, cap)]) is Some by {
                    assert(ring_index(self.head as int, i, cap) == ring_index(h as int, i + 1, cap));
                    assert(old(self).buffer@[ring_index(h as int, i + 1, cap)] is Some);
                }
                assert forall|i: int| 0 <= i < self.num implies
                    #[trigger] self.contents()[i] == old_contents.drop_first()[i] by {
                    assert(ring_index(self.head as int, i, cap) == ring_index(h as int, i + 1, cap));
                }
                assert(self.contents() =~= old_contents.drop_first());
            }
            res
        } else {
            None
        }
    }

    /// Drops every slot: the buffer ends up with no slots and no items.
    pub fn clear(&mut self)
        requires
            old(self).wf(),
        ensures
            final(self).wf(),
            final(self).slots() == Seq::<Option<T>>::empty(),
            final(self).head_pos() == 0,
            final(self).tail_pos() == 0,
            final(self).count() == 0,
    {
        self.buffer.clear();
        self.head = 0;
        self.tail = 0;
        self.num = 0;
    }

    /// Writes even when the buffer is full, by dropping the oldest item.
    ///
    /// With room left this is an ordinary successful `write`. On a full buffer
    /// the oldest item is dropped and the new one is queued last: it takes the
    /// oldest item's slot, and the read and write positions both move on by one.
    pub fn overwrite(&mut self, item: T)
        requires
            old(self).wf(),
            old(self).capacity() > 0,
        ensures
            final(self).wf(),
            final(self).capacity() == old(self).capacity(),
            old(self).count() < old(self).capacity() ==> {
                &&& final(self).slots() == old(self).slots().update(old(self).tail_pos(), Some(item))
                &&& final(self).head_pos() == old(self).head_pos()
                &&& final(self).tail_pos() == ring_index(old(self).tail_pos(), 1, old(self).capacity())
                &&& final(self).count() == old(self).count() + 1
                &&& final(self).contents() == old(self).contents().push(item)
            },
            old(self).count() == old(self).capacity() ==> {
                &&& final(self).slots() == old(self).slots().update(old(self).head_pos(), Some(item))
                &&& final(self).head_pos() == ring_index(old(self).head_pos(), 1, old(self).capacity())
                &&& final(self).tail_pos() == final(self).head_pos()
                &&& final(self).count() == old(self).count()
                &&& final(self).contents() == old(self).contents().drop_first().push(item)
            },
    {
        if self.num < self.buffer.len() {
            let r = self.write(item);
            assert(r is Ok);
        } else {
            let ghost cap = self.buffer.len() as int;
            let ghost old_contents = self.contents();
            let h = self.head;
            self.buffer.set(h, Some(item));
            let nh = if h + 1 == self.buffer.len() { 0 } else { h + 1 };
            self.head = nh;
            self.tail = nh;
            proof {
                assert forall|i: int| 0 <= i < self.num implies
                    (#[trigger] self.buffer@[ring_index(nh as int, i, cap)]) is Some by {
                    if i < cap - 1 {
                        assert(ring_index(nh as int, i, cap) == ring_index(h as int, i + 1, cap));
                        assert(old(self).buffer@[ring_index(h as int, i + 1, cap)] is Some);
                    } else {
                        assert(ring_index(nh as int, i, cap) == h);
                    }
                }
                assert forall|i: int| 0 <= i < self.num implies
                    #[trigger] self.contents()[i] == old_contents.drop_first().push(item)[i] by {
                    if i < cap - 1 {
                        assert(ring_index(nh as int, i, cap) == ring_index(h as int, i + 1, cap));
                        assert(ring_index(h as int, i + 1, cap) != h as int);
                    } else {
                        assert(ring_index(nh as int, i, cap) == h);
                    }
                }
                assert(self.contents() =~= old_contents.drop_first().push(item));
            }
        }
    }

    /// Moves the stored items, oldest first, to the front of a fresh slot
    /// vector of the same capacity; the read position becomes 0 and the write
    /// position follows the last item (wrapping to 0 when the buffer is full).
    pub fn make_contiguous(&mut self)
        requires
            old(self).wf(),
        ensures
            final(self).wf(),
            final(self).slots() == Seq::new(
                old(self).capacity() as nat,
                |i: int| if i < old(self).count() { Some(old(self).contents()[i]) } else { None },
            ),
            final(self).head_pos() == 0,
            final(self).tail_pos() == (if old(self).count() == old(self).capacity() { 0 } else { old(self).count() }),
            final(self).count() == old(self).count(),
            final(self).capacity() == old(self).capacity(),
            final(self).contents() == old(self).contents(),
    {
        let ghost old_contents = self.contents();
        let ghost old_head = self.head as int;
        let size = self.buffer.len();
        let mut v: Vec<Option<T>> = Vec::new();
        let mut k: usize = 0;
        while k < size
            invariant
                k <= size,
                v@ == Seq::new(k as nat, |i: int| None::<T>),
            decreases size - k,
        {
            v.push(None);
            k = k + 1;
        }
        let n = self.num;
        let mut i: usize = 0;
        while i < n
            invariant
                n == self.num,
                n == old_contents.len(),
                size == self.buffer.len(),
                size == v.len(),
                n <= size,
                i <= n,
                size > 0 ==> self.head < size,
                size > 0 ==> self.head as int == ring_index(old_head, i as int, size as int),
                0 <= old_head < size || size == 0,
                forall|j: int| i <= j < n ==> (#[trigger] self.buffer@[ring_index(old_head, j, size as int)])
                    == Some(old_contents[j]),
                forall|j: int| 0 <= j < i ==> #[trigger] v@[j] == Some(old_contents[j]),
                forall|j: int| i <= j < size ==> #[trigger] v@[j] == None::<T>,
            decreases n - i,
        {
            let h = self.head;
            let mut item: Option<T> = None;
            self.buffer.set_and_swap(h, &mut item);
            v.set(i, item);
            proof {
                assert forall|j: int| i + 1 <= j < n implies
                    (#[trigger] self.buffer@[ring_index(old_head, j, size as int)]) == Some(old_contents[j]) by {
                    assert(ring_index(old_head, j, size as int) != ring_index(old_head, i as int, size as int));
                }
            }
            self.head = if h + 1 == size { 0 } else { h + 1 };
            i = i + 1;
        }
        self.head = 0;
        self.tail = if n == size { 0 } else { n };
        self.buffer = v;
        proof {
            assert(self.buffer@ =~= Seq::new(
                size as nat,
                |j: int| if j < n { Some(old_contents[j]) } else { None },
            ));
            assert forall|j: int| 0 <= j < n implies
                (#[trigger] self.buffer@[ring_index(0, j, size as int)]) is Some by {}
            assert(self.contents() =~= old_contents);
        }
    }

    /// The slot `i` places after the read position, wrapping around the ring.
    pub fn get(&self, i: usize) -> (r: &Option<T>)
        requires
            self.wf(),
            self.capacity() > 0,
        ensures
            *r == self.slots()[ring_index(self.head_pos(), i as int % self.capacity(), self.capacity())],
    {
        let size = self.buffer.len();
        let k = i % size;
        let p = if k < size - self.head { self.head + k } else { k - (size - self.head) };
        &self.buffer[p]
    }

    /// Replaces the slot `i` places after the read position, wrapping around the ring.
    /// Positions and the item count are unchanged.
    pub fn set(&mut self, i: usize, value: Option<T>)
        requires
            old(self).wf(),
            old(self).capacity() > 0,
            value is Some || (i as int % old(self).capacity()) >= old(self).count(),
        ensures
            final(self).wf(),
            final(self).slots() == old(self).slots().update(
                ring_index(old(self).head_pos(), i as int % old(self).capacity(), old(self).capacity()),
                value,
            ),
            final(self).head_pos() == old(self).head_pos(),
            final(self).tail_pos() == old(self).tail_pos(),
            final(self).count() == old(self).count(),
    {
        let size = self.buffer.len();
        let k = i % size;
        let p = if k < size - self.head { self.head + k } else { k - (size - self.head) };
        self.buffer.set(p, value);
        proof {
            let cap = size as int;
            assert forall|j: int| 0 <= j < self.num implies
                (#[trigger] self.buffer@[ring_index(self.head as int, j, cap)]) is Some by {
                assert(old(self).buffer@[ring_index(self.head as int, j, cap)] is Some);
            }
        }
    }
}

/// The text of one slot: the item followed by `", "`, or just `", "` when empty.
pub open spec fn slot_text(s: Option<i32>) -> Seq<char> {
    match s {
        Some(x) => int_text(x as int) + seq![',', ' '],
        None => seq![',', ' '],
    }
}

/// The text of a run of slots, in physical order.
pub open spec fn slots_text(s: Seq<Option<i32>>) -> Seq<char>
    decreases s.len(),
{
    if s.len() == 0 {
        Seq::empty()
    } else {
        slots_text(s.drop_last()) + slot_text(s.last())
    }
}

/// What a call of `write(item)` that answered `r` does to the stored items:
/// on success the item is appended, otherwise nothing changes.
pub open spec fn write_step<T>(b: CircularBuffer<T>, item: T, r: Result<(), BufferError>, b2: CircularBuffer<T>) -> bool {
    &&& b2.capacity() == b.capacity()
    &&& (r is Ok) == (b.capacity() > 0 && b.count() < b.capacity())
    &&& r is Ok ==> b2.contents() == b.contents().push(item)
    &&& !(r is Ok) ==> b2.contents() == b.contents()
}

/// What a call of `read()` that answered `r` does: the oldest item leaves and
/// is returned, or `None` comes back when there is none.
pub open spec fn read_step<T>(b: CircularBuffer<T>, r: Option<T>, b2: CircularBuffer<T>) -> bool {
    &&& b2.capacity() == b.capacity()
    &&& b.contents().len() == 0 ==> r is None && b2.contents() == b.contents()
    &&& b.contents().len() > 0 ==> r == Some(b.contents()[0]) && b2.contents() == b.contents().drop_first()
}

/// One call on a ring buffer with what it answered.
pub enum RingCall<T> {
    Write(T, Result<(), BufferError>),
    Read(Option<T>),
}

/// Whether `call` took the buffer from `b` to `b2`.
pub open spec fn ring_step<T>(b: CircularBuffer<T>, call: RingCall<T>, b2: CircularBuffer<T>) -> bool {
    match call {
        RingCall::Write(item, r) => write_step(b, item, r, b2),
        RingCall::Read(r) => read_step(b, r, b2),
    }
}

/// The items whose write succeeded, in call order.
pub open spec fn written<T>(calls: Seq<RingCall<T>>) -> Seq<T>
    decreases calls.len(),
{
    if calls.len() == 0 {
        Seq::empty()
    } else {
        written(calls.drop_last()) + match calls.last() {
            RingCall::Write(item, r) => if r is Ok { seq![item] } else { Seq::empty() },
            RingCall::Read(_) => Seq::empty(),
        }
    }
}

/// The items that reads returned, in call order.
pub open spec fn read_back<T>(calls: Seq<RingCall<T>>) -> Seq<T>
    decreases calls.len(),
{
    if calls.len() == 0 {
        Seq::empty()
    } else {
        read_back(calls.drop_last()) + match calls.last() {
            RingCall::Read(r) => match r { Some(x) => seq![x], None => Seq::empty() },
            RingCall::Write(_, _) => Seq::empty(),
        }
    }
}

/// Law: a ring buffer is first in, first out. Over any run of writes and
/// reads from an empty buffer, the items read come back in the order they were
/// written, none skipped or repeated, and what was written but not yet read is
/// exactly what the buffer holds; so a read answers `None` only when every
/// written item has been read, and the item count is the number of successful
/// writes less the number of successful reads.
pub proof fn lemma_ring_fifo<T>(states: Seq<CircularBuffer<T>>, calls: Seq<RingCall<T>>)
    requires
        states.len() == calls.len() + 1,
        states[0].contents().len() == 0,
        forall|i: int| 0 <= i < calls.len() ==> #[trigger] ring_step(states[i], calls[i], states[i + 1]),
    ensures
        written(calls) == read_back(calls) + states.last().contents(),
        states.last().contents().len() == written(calls).len() - read_back(calls).len(),
    decreases calls.len(),
{
    if calls.len() == 0 {
        assert(states.last().contents() =~= Seq::<T>::empty());
        assert(written(calls) =~= Seq::<T>::empty());
        assert(read_back(calls) + states.last().contents() =~= Seq::<T>::empty());
    } else {
        let n = calls.len() - 1;
        let ps = states.drop_last();
        let pc = calls.drop_last();
        assert forall|i: int| 0 <= i < pc.len() implies #[trigger] ring_step(ps[i], pc[i], ps[i + 1]) by {
            assert(ring_step(states[i], calls[i], states[i + 1]));
        }
        lemma_ring_fifo(ps, pc);
        assert(ring_step(states[n], calls[n], states[n + 1]));
        assert(ps.last() == states[n]);
        let before = states[n].contents();
        match calls[n] {
            RingCall::Write(item, r) => {
                if r is Ok {
                    assert(written(calls) =~= written(pc) + seq![item]);
                } else {
                    assert(written(calls) =~= written(pc));
                }
                assert(read_back(calls) =~= read_back(pc));
            },
            RingCall::Read(r) => {
                assert(written(calls) =~= written(pc));
                if before.len() > 0 {
                    assert(read_back(calls) =~= read_back(pc) + seq![before[0]]);
                    assert(read_back(pc) + before =~= read_back(pc) + seq![before[0]] + before.drop_first());
                } else {
                    assert(read_back(calls) =~= read_back(pc));
                }
            },
        }
    }
}

/// Law: what a write or a read answers, and the items it leaves, depend only
/// on the stored items and the capacity, not on where in the slots they lie.
/// So `make_contiguous`, which keeps both, leaves every later run of writes
/// and reads answering as it would have without it.
pub proof fn lemma_steps_see_only_contents<T>(
    b1: CircularBuffer<T>,
    b2: CircularBuffer<T>,
    call: RingCall<T>,
    other: RingCall<T>,
    b1n: CircularBuffer<T>,
    b2n: CircularBuffer<T>,
)
    requires
        b1.wf(),
        b2.wf(),
        b1.contents() == b2.contents(),
        b1.capacity() == b2.capacity(),
        ring_step(b1, call, b1n),
        ring_step(b2, other, b2n),
        match (call, other) {
            (RingCall::Write(x, _), RingCall::Write(y, _)) => x == y,
            (RingCall::Read(_), RingCall::Read(_)) => true,
            _ => false,
        },
    ensures
        b1n.contents() == b2n.contents(),
        b1n.capacity() == b2n.capacity(),
        match (call, other) {
            (RingCall::Write(_, r1), RingCall::Write(_, r2)) => (r1 is Ok) == (r2 is Ok),
            (RingCall::Read(r1), RingCall::Read(r2)) => r1 == r2,
            _ => true,
        },
{
}

impl CircularBuffer<i32> {
    /// Renders every slot in physical order, as `"1, 1, , 1, 1, "`.
    pub fn to_string(&self) -> (s: String)
        ensures
            s@ == slots_text(self.slots()),
    {
        let mut s = String::new();
        let n = self.buffer.len();
        let mut i: usize = 0;
        while i < n
            invariant
                n == self.buffer.len(),
                i <= n,
                s@ == slots_text(self.buffer@.subrange(0, i as int)),
            decreases n - i,
        {
            let ghost before = s@;
            match &self.buffer[i] {
                Some(x) => {
                    push_int(&mut s, *x as i64);
                    push_str(&mut s, ", ");
                },
                None => {
                    push_str(&mut s, ", ");
                },
            }
            proof {
                reveal_strlit(", ");
                assert(self.buffer@.subrange(0, i + 1).drop_last() =~= self.buffer@.subrange(0, i as int));
            }
            i = i + 1;
        }
        proof {
            assert(self.buffer@.subrange(0, n as int) =~= self.buffer@);
        }
        s
    }
}

} // verus!

verus! {

impl<T> core::ops::Index<usize> for CircularBuffer<T> {
    type Output = Option<T>;

    /// The slot `i` places after the read position, as [`CircularBuffer::get`].
    fn index(&self, i: usize) -> (r: &Option<T>)
        ensures
            *r == self.slots()[ring_index(self.head_pos(), i as int % self.capacity(), self.capacity())],
    {
        self.get(i)
    }
}

impl<T> vstd::std_specs::core::IndexSpecImpl<usize> for CircularBuffer<T> {
    open spec fn index_req(&self, index: &usize) -> bool {
        self.wf() && self.capacity() > 0
    }
}

} // verus!
